//! Value types for one flight leg: location codes, ticket identifiers and
//! the ticket record itself. Instants are seconds since the Unix epoch.

use vstd::prelude::*;

verus! {

/// A location code: identifies a node of the ticket graph (for example an
/// airport code). Equality is value equality on the underlying string.
#[derive(Debug)]
pub struct Code(pub String);

/// A ticket identifier: unique per ticket, used to deduplicate insertions.
#[derive(Debug)]
pub struct Id(pub String);

impl View for Code {
    type V = Seq<char>;

    open spec fn view(&self) -> Seq<char> {
        self.0@
    }
}

impl View for Id {
    type V = Seq<char>;

    open spec fn view(&self) -> Seq<char> {
        self.0@
    }
}

impl Clone for Code {
    fn clone(&self) -> (r: Self)
        ensures
            r@ == self@,
    {
        Code(self.0.clone())
    }
}

impl Clone for Id {
    fn clone(&self) -> (r: Self)
        ensures
            r@ == self@,
    {
        Id(self.0.clone())
    }
}

impl PartialEq for Code {
    fn eq(&self, other: &Self) -> bool {
        self.0 == other.0
    }
}

impl vstd::std_specs::cmp::PartialEqSpecImpl for Code {
    open spec fn obeys_eq_spec() -> bool {
        true
    }

    open spec fn eq_spec(&self, other: &Self) -> bool {
        self@ == other@
    }
}

impl PartialEq for Id {
    fn eq(&self, other: &Self) -> bool {
        self.0 == other.0
    }
}

impl vstd::std_specs::cmp::PartialEqSpecImpl for Id {
    open spec fn obeys_eq_spec() -> bool {
        true
    }

    open spec fn eq_spec(&self, other: &Self) -> bool {
        self@ == other@
    }
}

/// One flight leg: an edge of the ticket graph from `departure_code` to
/// `arrival_code`. `departure_time <= arrival_time` is expected but not
/// enforced: a garbage ticket is still indexed.
#[derive(Debug)]
pub struct Ticket {
    pub id: Id,
    pub departure_code: Code,
    pub arrival_code: Code,
    pub departure_time: i64,
    pub arrival_time: i64,
    pub price: u64,
}

/// The mathematical value of a [`Ticket`].
pub ghost struct TicketView {
    pub id: Seq<char>,
    pub origin: Seq<char>,
    pub dest: Seq<char>,
    pub departure_time: int,
    pub arrival_time: int,
    pub price: int,
}

impl View for Ticket {
    type V = TicketView;

    open spec fn view(&self) -> TicketView {
        TicketView {
            id: self.id@,
            origin: self.departure_code@,
            dest: self.arrival_code@,
            departure_time: self.departure_time as int,
            arrival_time: self.arrival_time as int,
            price: self.price as int,
        }
    }
}

impl Clone for Ticket {
    fn clone(&self) -> (r: Self)
        ensures
            r@ == self@,
    {
        Ticket {
            id: self.id.clone(),
            departure_code: self.departure_code.clone(),
            arrival_code: self.arrival_code.clone(),
            departure_time: self.departure_time,
            arrival_time: self.arrival_time,
            price: self.price,
        }
    }
}

/// A batch of tickets, as handed to the store's insert path.
pub struct Tickets {
    pub tickets: Vec<Ticket>,
}

} // verus!
