//! Filter terms and their encoding as daemon-recognized key/value pairs.
use vstd::prelude::*;

verus! {

/// The kind of daemon object an event may concern.
#[derive(Copy, Clone)]
pub enum EventFilterType {
    Container,
    Image,
    Volume,
    Network,
    Daemon,
}

/// The fixed lowercase token the daemon expects for an event type.
pub open spec fn event_filter_type_token(filter: EventFilterType) -> Seq<char> {
    match filter {
        EventFilterType::Container => "container"@,
        EventFilterType::Image => "image"@,
        EventFilterType::Volume => "volume"@,
        EventFilterType::Network => "network"@,
        EventFilterType::Daemon => "daemon"@,
    }
}

pub fn event_filter_type_to_string(filter: EventFilterType) -> (r: &'static str)
    ensures
        r@ == event_filter_type_token(filter),
{
    match filter {
        EventFilterType::Container => "container",
        EventFilterType::Image => "image",
        EventFilterType::Volume => "volume",
        EventFilterType::Network => "network",
        EventFilterType::Daemon => "daemon",
    }
}

/// One filtering criterion for a list or event query. `query_key_val` encodes
/// it as a fixed daemon-recognized parameter name together with the term's
/// payload; encoding is total, with no error case.
pub trait Filter {
    /// The daemon-recognized parameter name this term falls under.
    spec fn key_spec(&self) -> Seq<char>;

    /// The encoded payload of this term.
    spec fn val_spec(&self) -> Seq<char>;

    fn query_key_val(&self) -> (r: (&'static str, String))
        ensures
            r.0@ == self.key_spec(),
            r.1@ == self.val_spec(),
            r.0.is_ascii(),
    ;
}

/// A filtering criterion for streams of daemon events.
pub enum EventFilter {
    Container(String),
    Event(String),
    Image(String),
    Label(String),
    Type(EventFilterType),
    Volume(String),
    Network(String),
    Daemon(String),
}

impl Filter for EventFilter {
    open spec fn key_spec(&self) -> Seq<char> {
        match self {
            EventFilter::Container(_) => "container"@,
            EventFilter::Event(_) => "event"@,
            EventFilter::Image(_) => "image"@,
            EventFilter::Label(_) => "label"@,
            EventFilter::Type(_) => "type"@,
            EventFilter::Volume(_) => "volume"@,
            EventFilter::Network(_) => "network"@,
            EventFilter::Daemon(_) => "daemon"@,
        }
    }

    open spec fn val_spec(&self) -> Seq<char> {
        match self {
            EventFilter::Container(n) => n@,
            EventFilter::Event(n) => n@,
            EventFilter::Image(n) => n@,
            EventFilter::Label(n) => n@,
            EventFilter::Type(t) => event_filter_type_token(*t),
            EventFilter::Volume(n) => n@,
            EventFilter::Network(n) => n@,
            EventFilter::Daemon(n) => n@,
        }
    }

    fn query_key_val(&self) -> (r: (&'static str, String)) {
        proof {
            reveal_strlit("container");
            reveal_strlit("event");
            reveal_strlit("image");
            reveal_strlit("label");
            reveal_strlit("type");
            reveal_strlit("volume");
            reveal_strlit("network");
            reveal_strlit("daemon");
        }
        match self {
            EventFilter::Container(n) => ("container", n.clone()),
            EventFilter::Event(n) => ("event", n.clone()),
            EventFilter::Image(n) => ("image", n.clone()),
            EventFilter::Label(n) => ("label", n.clone()),
            EventFilter::Type(t) => ("type", event_filter_type_to_string(*t).to_owned()),
            EventFilter::Volume(n) => ("volume", n.clone()),
            EventFilter::Network(n) => ("network", n.clone()),
            EventFilter::Daemon(n) => ("daemon", n.clone()),
        }
    }
}

} // verus!
