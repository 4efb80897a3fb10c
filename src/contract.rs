use vstd::prelude::*;
use vstd::utf8::{is_ascii_chars, is_ascii_chars_encode_utf8};
use crate::event::{string_views, Event, GuestSet};
use crate::event_json::EventJSON;
use crate::price::{digits_value, is_price_text, parse_price};
use crate::storage_key::{
    guest_root, is_prefix, lemma_guest_roots_distinct, lemma_guest_roots_prefix_free, owner_fits,
    StorageKey,
};

verus! {

/// What can go wrong in a registry operation.
#[derive(Debug, Clone, Copy, PartialEq, Eq, Structural)]
pub enum EventError {
    /// The account has no event.
    MissingEvent,
    /// The price text is not a decimal number that fits in 128 bits.
    InvalidPrice,
    /// The text form of an event view could not be read.
    MalformedView,
}

/// An event as the registry sees it: its price, its guests in enumeration
/// order, and the storage key its guest set is rooted at.
pub type EventModel = (u128, Seq<Seq<char>>, Seq<u8>);

/// `set` with each guest of `added` appended, in order, unless already present.
pub open spec fn add_guests(set: Seq<Seq<char>>, added: Seq<Seq<char>>) -> Seq<Seq<char>>
    decreases added.len(),
{
    if added.len() == 0 {
        set
    } else {
        let before = add_guests(set, added.drop_last());
        if before.contains(added.last()) {
            before
        } else {
            before.push(added.last())
        }
    }
}

/// The price a valid price text stands for.
pub open spec fn price_of(text: Seq<char>) -> u128 {
    digits_value(text) as u128
}

/// The registry after `owner` writes the view `event` (whose price is valid):
/// a new guest set rooted at `owner`'s key, holding the view's guests.
pub open spec fn after_insert(
    m: Map<Seq<char>, EventModel>,
    owner: Seq<char>,
    event: EventJSON,
) -> Map<Seq<char>, EventModel> {
    m.insert(
        owner,
        (
            price_of(event.price@),
            add_guests(Seq::empty(), string_views(event.guests@)),
            guest_root(owner),
        ),
    )
}

/// The registry after `owner`, who has an event, adds `guests` to it; price
/// and root stay.
pub open spec fn after_set_guests(
    m: Map<Seq<char>, EventModel>,
    owner: Seq<char>,
    guests: Seq<Seq<char>>,
) -> Map<Seq<char>, EventModel> {
    m.insert(owner, (m[owner].0, add_guests(m[owner].1, guests), m[owner].2))
}

/// Adding guests keeps each guest once, and the result holds exactly the
/// guests that were there and the guests added.
pub proof fn lemma_add_guests(set: Seq<Seq<char>>, added: Seq<Seq<char>>)
    requires
        set.no_duplicates(),
    ensures
        add_guests(set, added).no_duplicates(),
        add_guests(set, added).to_set() == set.to_set().union(added.to_set()),
    decreases added.len(),
{
    if added.len() > 0 {
        let rest = added.drop_last();
        let g = added.last();
        lemma_add_guests(set, rest);
        let before = add_guests(set, rest);
        assert(added.to_set() =~= rest.to_set().insert(g)) by {
            assert forall|x: Seq<char>| added.to_set().contains(x) <==> rest.to_set().insert(g).contains(x) by {
                if added.contains(x) {
                    let i = choose|i: int| 0 <= i < added.len() && added[i] == x;
                    if i < added.len() - 1 {
                        assert(rest[i] == x);
                    }
                }
                if rest.contains(x) {
                    let i = choose|i: int| 0 <= i < rest.len() && rest[i] == x;
                    assert(added[i] == x);
                }
                if x == g {
                    assert(added[added.len() - 1] == x);
                }
            }
        }
        if !before.contains(g) {
            let after = before.push(g);
            assert(after.no_duplicates()) by {
                assert forall|i: int, j: int| 0 <= i < after.len() && 0 <= j < after.len() && i != j
                    implies after[i] != after[j] by {
                    if i < before.len() && j < before.len() {
                        assert(after[i] == before[i] && after[j] == before[j]);
                    } else if i < before.len() {
                        assert(after[i] == before[i]);
                    } else {
                        assert(after[j] == before[j]);
                    }
                }
            }
            assert(after.to_set() =~= before.to_set().insert(g)) by {
                assert forall|x: Seq<char>| after.to_set().contains(x) <==> before.to_set().insert(g).contains(x) by {
                    if after.contains(x) {
                        let i = choose|i: int| 0 <= i < after.len() && after[i] == x;
                        if i < before.len() {
                            assert(before[i] == x);
                        }
                    }
                    if before.contains(x) {
                        let i = choose|i: int| 0 <= i < before.len() && before[i] == x;
                        assert(after[i] == x);
                    }
                    if x == g {
                        assert(after[before.len() as int] == x);
                    }
                }
            }
        }
        assert(add_guests(set, added).to_set() =~= set.to_set().union(added.to_set()));
    }
}

/// After an event is written, the owner's event has the written price, in
/// canonical decimal form, and holds each written guest exactly once.
pub proof fn lemma_read_after_write(
    m: Map<Seq<char>, EventModel>,
    owner: Seq<char>,
    event: EventJSON,
)
    requires
        is_price_text(event.price@),
    ensures
        after_insert(m, owner, event).contains_key(owner),
        after_insert(m, owner, event)[owner].0 as nat == digits_value(event.price@),
        after_insert(m, owner, event)[owner].1.no_duplicates(),
        after_insert(m, owner, event)[owner].1.to_set() == string_views(event.guests@).to_set(),
{
    let added = string_views(event.guests@);
    lemma_add_guests(Seq::empty(), added);
    assert(Seq::<Seq<char>>::empty().to_set().union(added.to_set()) =~= added.to_set());
}

/// Adding the same guest several times stores it once.
pub proof fn lemma_repeated_guest_stored_once(
    m: Map<Seq<char>, EventModel>,
    owner: Seq<char>,
    g: Seq<char>,
)
    requires
        m.contains_key(owner),
        m[owner].1.no_duplicates(),
    ensures
        after_set_guests(m, owner, seq![g, g, g])[owner].1 == if m[owner].1.contains(g) {
            m[owner].1
        } else {
            m[owner].1.push(g)
        },
        after_set_guests(m, owner, seq![g, g, g])[owner].1 == after_set_guests(m, owner, seq![g])[owner].1,
        after_set_guests(m, owner, seq![g, g, g])[owner].1.contains(g),
        after_set_guests(m, owner, seq![g, g, g])[owner].1.no_duplicates(),
{
    let s = m[owner].1;
    let three = seq![g, g, g];
    assert(three.drop_last() =~= seq![g, g]);
    assert(seq![g, g].drop_last() =~= seq![g]);
    assert(seq![g].drop_last() =~= Seq::<Seq<char>>::empty());
    assert(add_guests(s, Seq::<Seq<char>>::empty()) == s);
    let once = add_guests(s, seq![g]);
    assert(once == if s.contains(g) {
        s
    } else {
        s.push(g)
    });
    assert(once.contains(g)) by {
        if s.contains(g) {
        } else {
            assert(s.push(g)[s.len() as int] == g);
        }
    }
    assert(add_guests(s, seq![g, g]) == once);
    assert(add_guests(s, three) == once);
    lemma_add_guests(s, three);
}

/// A write by one account leaves every other account's event as it was.
pub proof fn lemma_writes_independent(
    m: Map<Seq<char>, EventModel>,
    writer: Seq<char>,
    reader: Seq<char>,
    event: EventJSON,
    guests: Seq<Seq<char>>,
)
    requires
        writer != reader,
    ensures
        after_insert(m, writer, event).contains_key(reader) == m.contains_key(reader),
        after_set_guests(m, writer, guests).contains_key(reader) == m.contains_key(reader),
        m.contains_key(reader) ==> after_insert(m, writer, event)[reader] == m[reader],
        m.contains_key(reader) ==> after_set_guests(m, writer, guests)[reader] == m[reader],
{
}

/// One write that an account makes to its own event.
pub enum RegistryWrite {
    /// Writes a new event from a view.
    InsertEvent(EventJSON),
    /// Adds guests to the existing event.
    SetGuests(Seq<Seq<char>>),
}

/// The registry after `writer` makes the write `w`; a write that fails (an
/// invalid price, or guests for a missing event) changes nothing.
pub open spec fn apply_write(
    m: Map<Seq<char>, EventModel>,
    writer: Seq<char>,
    w: RegistryWrite,
) -> Map<Seq<char>, EventModel> {
    match w {
        RegistryWrite::InsertEvent(event) => if is_price_text(event.price@) {
            after_insert(m, writer, event)
        } else {
            m
        },
        RegistryWrite::SetGuests(guests) => if m.contains_key(writer) {
            after_set_guests(m, writer, guests)
        } else {
            m
        },
    }
}

/// The registry after `writer` makes the writes `ws`, in order.
pub open spec fn apply_writes(
    m: Map<Seq<char>, EventModel>,
    writer: Seq<char>,
    ws: Seq<RegistryWrite>,
) -> Map<Seq<char>, EventModel>
    decreases ws.len(),
{
    if ws.len() == 0 {
        m
    } else {
        apply_write(apply_writes(m, writer, ws.drop_last()), writer, ws.last())
    }
}

/// Any run of writes by one account, succeeding or failing, leaves every
/// other account's event as it was, and absent where it was absent.
pub proof fn lemma_write_runs_independent(
    m: Map<Seq<char>, EventModel>,
    writer: Seq<char>,
    reader: Seq<char>,
    ws: Seq<RegistryWrite>,
)
    requires
        writer != reader,
    ensures
        apply_writes(m, writer, ws).contains_key(reader) == m.contains_key(reader),
        m.contains_key(reader) ==> apply_writes(m, writer, ws)[reader] == m[reader],
    decreases ws.len(),
{
    if ws.len() > 0 {
        lemma_write_runs_independent(m, writer, reader, ws.drop_last());
    }
}

/// Relies on `near_sdk::env::predecessor_account_id`: the account that made the
/// current call. near_sdk checks it as an account id (2 to 64 characters, each
/// a lowercase letter, a digit or one of `-`, `_`, `.`) and aborts otherwise.
#[verifier::external_body]
fn predecessor_account_id() -> (r: String)
    ensures
        2 <= r@.len() <= 64,
        is_ascii_chars(r@),
{
    String::from(near_sdk::env::predecessor_account_id())
}

/// The registry: for each account, at most one event. The registry is rooted
/// at the `Events` key; each event's guest set at its owner's `Guests` key.
pub struct Contract {
    root: Vec<u8>,
    events: Vec<(String, Event)>,
    model: Ghost<Map<Seq<char>, EventModel>>,
}

impl View for Contract {
    type V = Map<Seq<char>, EventModel>;

    closed spec fn view(&self) -> Map<Seq<char>, EventModel> {
        self.model@
    }
}

impl Contract {
    /// Owners are unique, each record matches the model and its guest set is
    /// rooted at its owner's key, and the model holds nothing else.
    pub closed spec fn wf(&self) -> bool {
        &&& self.root@ == StorageKey::Events.spec_bytes()
        &&& forall|i: int, j: int|
            0 <= i < j < self.events@.len() ==> #[trigger] self.events@[i].0@
                != #[trigger] self.events@[j].0@
        &&& forall|i: int|
            0 <= i < self.events@.len() ==> {
                let (k, e) = #[trigger] self.events@[i];
                &&& self.model@.contains_key(k@)
                &&& self.model@[k@] == (e.price, e.guests@, e.guests.root())
                &&& e.guests.wf()
                &&& e.guests.root() == guest_root(k@)
                &&& owner_fits(k@)
            }
        &&& forall|k: Seq<char>|
            #[trigger] self.model@.contains_key(k) ==> exists|i: int|
                0 <= i < self.events@.len() && self.events@[i].0@ == k
    }

    /// The storage key the registry is rooted at.
    pub closed spec fn root(&self) -> Seq<u8> {
        self.root@
    }

    /// The registry is rooted at the `Events` key.
    pub proof fn lemma_registry_root(&self)
        requires
            self.wf(),
        ensures
            self.root() == StorageKey::Events.spec_bytes(),
    {
    }

    /// Every stored guest list holds each guest once, and is rooted at its
    /// owner's `Guests` key.
    pub proof fn lemma_stored_event(&self, owner: Seq<char>)
        requires
            self.wf(),
            self@.contains_key(owner),
        ensures
            self@[owner].1.no_duplicates(),
            self@[owner].2 == guest_root(owner),
            owner_fits(owner),
    {
        let i = choose|i: int| 0 <= i < self.events@.len() && self.events@[i].0@ == owner;
        assert(self.events@[i].1.guests.wf());
    }

    /// The guest sets of two owners are rooted at distinct keys, neither of
    /// which is a prefix of the other or of the registry's key.
    pub proof fn lemma_stored_roots_distinct(&self, c1: Seq<char>, c2: Seq<char>)
        requires
            self.wf(),
            self@.contains_key(c1),
            self@.contains_key(c2),
            c1 != c2,
        ensures
            self@[c1].2 != self@[c2].2,
            !is_prefix(self@[c1].2, self@[c2].2),
            !is_prefix(self@[c1].2, self.root()),
            !is_prefix(self.root(), self@[c1].2),
    {
        self.lemma_stored_event(c1);
        self.lemma_stored_event(c2);
        lemma_guest_roots_distinct(c1, c2);
        lemma_guest_roots_prefix_free(c1, c2);
    }

    /// An empty registry.
    pub fn new() -> (r: Contract)
        ensures
            r.wf(),
            r@ == Map::<Seq<char>, EventModel>::empty(),
            r.root() == StorageKey::Events.spec_bytes(),
    {
        Contract {
            root: StorageKey::Events.into_storage_key(),
            events: Vec::new(),
            model: Ghost(Map::empty()),
        }
    }

    /// The position of `owner`'s record, if it has one.
    fn find(&self, owner: &String) -> (r: Option<usize>)
        requires
            self.wf(),
        ensures
            r matches Some(i) ==> i < self.events@.len() && self.events@[i as int].0@ == owner@,
            r is None ==> !self@.contains_key(owner@),
    {
        let mut i: usize = 0;
        while i < self.events.len()
            invariant
                self.wf(),
                i <= self.events@.len(),
                forall|j: int| 0 <= j < i ==> self.events@[j].0@ != owner@,
            decreases self.events@.len() - i,
        {
            if self.events[i].0 == *owner {
                return Some(i);
            }
            i = i + 1;
        }
        None
    }

    /// The record of `owner`, or `MissingEvent` if it has none.
    pub(crate) fn internal_get_event(&self, owner: &String) -> (r: Result<&Event, EventError>)
        requires
            self.wf(),
        ensures
            r is Ok <==> self@.contains_key(owner@),
            r matches Ok(e) ==> self@[owner@] == (e.price, e.guests@, e.guests.root()),
            r matches Err(e) ==> e == EventError::MissingEvent,
    {
        match self.find(owner) {
            Some(i) => Ok(&self.events[i].1),
            None => Err(EventError::MissingEvent),
        }
    }

    /// Stores `event` as the record of `owner`, replacing any earlier one.
    pub(crate) fn internal_set_event(&mut self, owner: &String, event: Event)
        requires
            old(self).wf(),
            event.guests.wf(),
            event.guests.root() == guest_root(owner@),
            owner_fits(owner@),
        ensures
            final(self).wf(),
            final(self)@ == old(self)@.insert(
                owner@,
                (event.price, event.guests@, event.guests.root()),
            ),
    {
        let ghost m = self.model@.insert(owner@, (event.price, event.guests@, event.guests.root()));
        match self.find(owner) {
            Some(i) => {
                self.events.set(i, (owner.clone(), event));
                self.model = Ghost(m);
                assert forall|k: Seq<char>| #[trigger] self.model@.contains_key(k) implies exists|j: int|
                    0 <= j < self.events@.len() && self.events@[j].0@ == k by {
                    if k != owner@ {
                        let j = choose|j: int| 0 <= j < old(self).events@.len() && old(self).events@[j].0@ == k;
                        assert(self.events@[j] == old(self).events@[j]);
                    } else {
                        assert(self.events@[i as int].0@ == k);
                    }
                }
            },
            None => {
                self.events.push((owner.clone(), event));
                self.model = Ghost(m);
                let ghost n = old(self).events@.len();
                assert(self.events@[n as int].0@ == owner@);
                assert forall|k: Seq<char>| #[trigger] self.model@.contains_key(k) implies exists|j: int|
                    0 <= j < self.events@.len() && self.events@[j].0@ == k by {
                    if k != owner@ {
                        let j = choose|j: int| 0 <= j < old(self).events@.len() && old(self).events@[j].0@ == k;
                        assert(self.events@[j] == old(self).events@[j]);
                    } else {
                        assert(self.events@[n as int].0@ == k);
                    }
                }
            },
        }
    }

    /// The view of `event_owner_id`'s event, or `MissingEvent` if it has none.
    pub fn get_event(&self, event_owner_id: String) -> (r: Result<EventJSON, EventError>)
        requires
            self.wf(),
        ensures
            r is Ok <==> self@.contains_key(event_owner_id@),
            r matches Ok(v) ==> v.shows(self@[event_owner_id@].0, self@[event_owner_id@].1),
            r matches Err(e) ==> e == EventError::MissingEvent,
    {
        match self.internal_get_event(&event_owner_id) {
            Ok(event) => Ok(EventJSON::from_event(event)),
            Err(e) => Err(e),
        }
    }

    /// Adds `guests` to the guest set of `owner`'s event.
    pub(crate) fn set_guests_as(&mut self, owner: &String, guests: Vec<String>) -> (r: Result<
        (),
        EventError,
    >)
        requires
            old(self).wf(),
        ensures
            final(self).wf(),
            r is Ok <==> old(self)@.contains_key(owner@),
            r is Ok ==> final(self)@ == after_set_guests(old(self)@, owner@, string_views(guests@)),
            final(self)@ == apply_write(
                old(self)@,
                owner@,
                RegistryWrite::SetGuests(string_views(guests@)),
            ),
            r matches Err(e) ==> e == EventError::MissingEvent && final(self)@ == old(self)@,
    {
        let i = match self.find(owner) {
            Some(i) => i,
            None => {
                return Err(EventError::MissingEvent);
            },
        };
        let ghost start = self.events@[i as int].1.guests@;
        let ghost added = string_views(guests@);
        let mut j: usize = 0;
        while j < guests.len()
            invariant
                i < self.events@.len(),
                j <= guests@.len(),
                added == string_views(guests@),
                self.model == old(self).model,
                self.root == old(self).root,
                self.events@.len() == old(self).events@.len(),
                self.events@[i as int].0 == old(self).events@[i as int].0,
                self.events@[i as int].1.price == old(self).events@[i as int].1.price,
                self.events@[i as int].1.guests.root() == old(self).events@[i as int].1.guests.root(),
                self.events@[i as int].1.guests.wf(),
                self.events@[i as int].1.guests@ == add_guests(start, added.subrange(0, j as int)),
                forall|k: int| 0 <= k < self.events@.len() && k != i ==> self.events@[k] == old(self).events@[k],
            decreases guests@.len() - j,
        {
            let ghost before = self.events@[i as int].1.guests@;
            self.events[i].1.guests.insert(&guests[j]);
            assert(added.subrange(0, j + 1).drop_last() =~= added.subrange(0, j as int));
            assert(added.subrange(0, j + 1).last() == guests@[j as int]@);
            j = j + 1;
        }
        assert(added.subrange(0, j as int) =~= added);
        let ghost value = (
            self.events@[i as int].1.price,
            self.events@[i as int].1.guests@,
            self.events@[i as int].1.guests.root(),
        );
        self.model = Ghost(self.model@.insert(owner@, value));
        assert(self.wf()) by {
            assert forall|k: Seq<char>| #[trigger] self.model@.contains_key(k) implies exists|l: int|
                0 <= l < self.events@.len() && self.events@[l].0@ == k by {
                if k != owner@ {
                    let l = choose|l: int| 0 <= l < old(self).events@.len() && old(self).events@[l].0@ == k;
                    assert(self.events@[l] == old(self).events@[l]);
                } else {
                    assert(self.events@[i as int].0@ == k);
                }
            }
            assert forall|a: int| 0 <= a < self.events@.len() implies {
                let (k, e) = #[trigger] self.events@[a];
                &&& self.model@.contains_key(k@)
                &&& self.model@[k@] == (e.price, e.guests@, e.guests.root())
                &&& e.guests.wf()
                &&& e.guests.root() == guest_root(k@)
                &&& owner_fits(k@)
            } by {
                if a != i {
                    assert(self.events@[a] == old(self).events@[a]);
                    assert(old(self).events@[a].0@ != old(self).events@[i as int].0@);
                }
            }
        }
        Ok(())
    }

    /// Adds `guests` to the guest set of the calling account's event; fails
    /// with `MissingEvent`, changing nothing, if the caller has none.
    pub fn set_guests(&mut self, guests: Vec<String>) -> (r: Result<(), EventError>)
        requires
            old(self).wf(),
        ensures
            final(self).wf(),
            exists|caller: Seq<char>|
                {
                    &&& (r is Ok <==> old(self)@.contains_key(caller))
                    &&& (r is Ok ==> final(self)@ == after_set_guests(
                        old(self)@,
                        caller,
                        string_views(guests@),
                    ))
                    &&& (r matches Err(e) ==> e == EventError::MissingEvent && final(self)@
                        == old(self)@)
                    &&& final(self)@ == apply_write(
                        old(self)@,
                        caller,
                        RegistryWrite::SetGuests(string_views(guests@)),
                    )
                },
    {
        let owner = predecessor_account_id();
        self.set_guests_as(&owner, guests)
    }

    /// Writes a new event for `owner` from the view `event`: a fresh, empty
    /// guest set rooted at `owner`'s key, then the view's guests added to it.
    pub(crate) fn insert_event_as(&mut self, owner: &String, event: EventJSON) -> (r: Result<
        (),
        EventError,
    >)
        requires
            old(self).wf(),
            owner_fits(owner@),
        ensures
            final(self).wf(),
            r is Ok <==> is_price_text(event.price@),
            r is Ok ==> final(self)@ == after_insert(old(self)@, owner@, event),
            final(self)@ == apply_write(old(self)@, owner@, RegistryWrite::InsertEvent(event)),
            r matches Err(e) ==> e == EventError::InvalidPrice && final(self)@ == old(self)@,
    {
        let price = match parse_price(event.price.as_str()) {
            Some(p) => p,
            None => {
                return Err(EventError::InvalidPrice);
            },
        };
        let key = StorageKey::Guests { event_owner_id: owner.clone() };
        let guests = GuestSet::new(key.into_storage_key());
        self.internal_set_event(owner, Event { price, guests });
        let ghost mid = self@;
        let r = self.set_guests_as(owner, event.guests);
        assert(r is Ok);
        assert(after_set_guests(mid, owner@, string_views(event.guests@)) =~= after_insert(
            old(self)@,
            owner@,
            event,
        ));
        r
    }

    /// Writes a new event for the calling account from the view `event`,
    /// replacing any earlier one: the earlier guests are not kept. Fails with `InvalidPrice`, changing nothing,
    /// when the price text is not a decimal number that fits in 128 bits.
    pub fn insert_event(&mut self, event: EventJSON) -> (r: Result<(), EventError>)
        requires
            old(self).wf(),
        ensures
            final(self).wf(),
            r is Ok <==> is_price_text(event.price@),
            r is Ok ==> exists|caller: Seq<char>|
                final(self)@ == after_insert(old(self)@, caller, event),
            exists|caller: Seq<char>|
                final(self)@ == apply_write(old(self)@, caller, RegistryWrite::InsertEvent(event)),
            r matches Err(e) ==> e == EventError::InvalidPrice && final(self)@ == old(self)@,
    {
        let owner = predecessor_account_id();
        proof {
            is_ascii_chars_encode_utf8(owner@);
        }
        self.insert_event_as(&owner, event)
    }
}

impl Default for Contract {
    fn default() -> (r: Contract)
        ensures
            r.wf(),
            r@ == Map::<Seq<char>, EventModel>::empty(),
            r.root() == StorageKey::Events.spec_bytes(),
    {
        Contract::new()
    }
}

} // verus!
