use vstd::prelude::*;
use crate::event::{string_views, Event};
use crate::price::{decimal, price_to_string};

verus! {

/// The view of an event exchanged with callers: the price as decimal text and
/// the guests as a list.
pub struct EventJSON {
    pub price: String,
    pub guests: Vec<String>,
}

impl EventJSON {
    /// Whether `self` shows an event of price `price` with guests `guests`.
    pub open spec fn shows(&self, price: u128, guests: Seq<Seq<char>>) -> bool {
        &&& self.price@ == decimal(price as nat)
        &&& string_views(self.guests@) == guests
    }

    /// The view of a persistent record: the price printed in decimal and the
    /// guest set enumerated.
    pub fn from_event(event: &Event) -> (r: EventJSON)
        ensures
            r.shows(event.price, event.guests@),
    {
        EventJSON { price: price_to_string(event.price), guests: event.guests.to_vec() }
    }
}

impl From<Event> for EventJSON {
    fn from(event: Event) -> (r: EventJSON)
        ensures
            r.shows(event.price, event.guests@),
    {
        EventJSON::from_event(&event)
    }
}

impl vstd::std_specs::convert::FromSpecImpl<Event> for EventJSON {
    open spec fn obeys_from_spec() -> bool {
        false
    }

    open spec fn from_spec(v: Event) -> EventJSON {
        arbitrary()
    }
}

} // verus!
