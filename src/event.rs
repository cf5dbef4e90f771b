use vstd::prelude::*;

verus! {

/// The families of the event taxonomy.
#[derive(Debug, PartialEq, Eq, Structural, Clone, Copy, Hash)]
pub enum EventGroup {
    Smtp,
    Imap,
    Pop3,
    ManageSieve,
    Http,
    Delivery,
    Queue,
    MessageIngest,
    Auth,
    MtaSts,
    TlsRpt,
    Dane,
    Iprev,
    Spf,
    Dmarc,
    Dkim,
    MailAuth,
    Limit,
    Tls,
    IncomingReport,
    OutgoingReport,
    Sieve,
    Milter,
    MtaHook,
    Security,
    Store,
    Telemetry,
}

/// The number of event families.
pub const GROUP_COUNT: u16 = 27;

/// In a family that carries sessions, the kind that opens a span.
pub const KIND_SPAN_START: u8 = 0;
/// In a family that carries sessions, the kind that closes a span.
pub const KIND_SPAN_END: u8 = 1;
/// In a family that carries sessions, the kinds that record raw traffic.
pub const KIND_RAW_INPUT: u8 = 2;
pub const KIND_RAW_OUTPUT: u8 = 3;

/// Kinds of the message ingestion family.
pub const INGEST_HAM: u8 = 0;
pub const INGEST_SPAM: u8 = 1;
pub const INGEST_IMAP_APPEND: u8 = 2;
pub const INGEST_JMAP_APPEND: u8 = 3;
pub const INGEST_DUPLICATE: u8 = 4;
pub const INGEST_ERROR: u8 = 5;
pub const INGEST_FTS_INDEX: u8 = 6;

/// Kinds of the queue family.
pub const QUEUE_MESSAGE: u8 = 0;
pub const QUEUE_MESSAGE_AUTHENTICATED: u8 = 1;
pub const QUEUE_REPORT: u8 = 2;
pub const QUEUE_DSN: u8 = 3;
pub const QUEUE_AUTOGENERATED: u8 = 4;
pub const QUEUE_RESCHEDULED: u8 = 5;
pub const QUEUE_LOCK_BUSY: u8 = 6;
pub const QUEUE_LOCKED: u8 = 7;
pub const QUEUE_BLOB_NOT_FOUND: u8 = 8;
pub const QUEUE_RATE_LIMIT_EXCEEDED: u8 = 9;
pub const QUEUE_CONCURRENCY_LIMIT_EXCEEDED: u8 = 10;
pub const QUEUE_QUOTA_EXCEEDED: u8 = 11;

/// Kinds of the outgoing report family: those up to and including
/// `OUTGOING_NO_RECIPIENTS_FOUND` describe report delivery, the rest locking.
pub const OUTGOING_NO_RECIPIENTS_FOUND: u8 = 13;
pub const OUTGOING_LOCKED: u8 = 14;
pub const OUTGOING_MAX_SIZE_EXCEEDED: u8 = 15;

/// Kinds of the authentication family.
pub const AUTH_SUCCESS: u8 = 0;
pub const AUTH_FAILED: u8 = 1;
pub const AUTH_TOO_MANY_ATTEMPTS: u8 = 2;
pub const AUTH_ERROR: u8 = 3;
pub const AUTH_CLIENT_REGISTRATION: u8 = 4;

/// An event type: a family and a kind within it.
#[derive(Debug, PartialEq, Eq, Structural, Clone, Copy, Hash)]
pub struct EventType {
    pub group: EventGroup,
    pub kind: u8,
}

/// The position of a family in the taxonomy.
pub open spec fn group_index(g: EventGroup) -> u16 {
    match g {
        EventGroup::Smtp => 0,
        EventGroup::Imap => 1,
        EventGroup::Pop3 => 2,
        EventGroup::ManageSieve => 3,
        EventGroup::Http => 4,
        EventGroup::Delivery => 5,
        EventGroup::Queue => 6,
        EventGroup::MessageIngest => 7,
        EventGroup::Auth => 8,
        EventGroup::MtaSts => 9,
        EventGroup::TlsRpt => 10,
        EventGroup::Dane => 11,
        EventGroup::Iprev => 12,
        EventGroup::Spf => 13,
        EventGroup::Dmarc => 14,
        EventGroup::Dkim => 15,
        EventGroup::MailAuth => 16,
        EventGroup::Limit => 17,
        EventGroup::Tls => 18,
        EventGroup::IncomingReport => 19,
        EventGroup::OutgoingReport => 20,
        EventGroup::Sieve => 21,
        EventGroup::Milter => 22,
        EventGroup::MtaHook => 23,
        EventGroup::Security => 24,
        EventGroup::Store => 25,
        EventGroup::Telemetry => 26,
    }
}

/// The family at position `i` of the taxonomy.
pub fn group_at(i: u16) -> (r: Option<EventGroup>)
    ensures
        i < GROUP_COUNT <==> r.is_some(),
        r.is_some() ==> group_index(r.unwrap()) == i,
{
    match i {
        0 => Some(EventGroup::Smtp),
        1 => Some(EventGroup::Imap),
        2 => Some(EventGroup::Pop3),
        3 => Some(EventGroup::ManageSieve),
        4 => Some(EventGroup::Http),
        5 => Some(EventGroup::Delivery),
        6 => Some(EventGroup::Queue),
        7 => Some(EventGroup::MessageIngest),
        8 => Some(EventGroup::Auth),
        9 => Some(EventGroup::MtaSts),
        10 => Some(EventGroup::TlsRpt),
        11 => Some(EventGroup::Dane),
        12 => Some(EventGroup::Iprev),
        13 => Some(EventGroup::Spf),
        14 => Some(EventGroup::Dmarc),
        15 => Some(EventGroup::Dkim),
        16 => Some(EventGroup::MailAuth),
        17 => Some(EventGroup::Limit),
        18 => Some(EventGroup::Tls),
        19 => Some(EventGroup::IncomingReport),
        20 => Some(EventGroup::OutgoingReport),
        21 => Some(EventGroup::Sieve),
        22 => Some(EventGroup::Milter),
        23 => Some(EventGroup::MtaHook),
        24 => Some(EventGroup::Security),
        25 => Some(EventGroup::Store),
        26 => Some(EventGroup::Telemetry),
        _ => None,
    }
}

/// The number of kinds in a family.
pub open spec fn group_size(g: EventGroup) -> u8 {
    match g {
        EventGroup::MessageIngest => 7,
        EventGroup::Queue => 12,
        EventGroup::OutgoingReport => 16,
        EventGroup::Auth => 5,
        _ => 8,
    }
}

/// Whether a family carries sessions, and so spans.
pub open spec fn is_session_group(g: EventGroup) -> bool {
    match g {
        EventGroup::Smtp | EventGroup::Imap | EventGroup::Pop3 | EventGroup::ManageSieve
        | EventGroup::Http => true,
        _ => false,
    }
}

/// Whether `t` names a kind that exists in its family.
pub open spec fn is_valid_type(t: EventType) -> bool {
    t.kind < group_size(t.group)
}

/// The numeric code of an event type.
pub open spec fn type_code(t: EventType) -> u16 {
    (group_index(t.group) * 256 + t.kind) as u16
}

/// Whether an event of this type closes its span.
pub open spec fn spec_is_span_end(t: EventType) -> bool {
    (is_session_group(t.group) || t.group == EventGroup::Delivery) && t.kind == KIND_SPAN_END
}

/// Whether an event of this type records raw protocol traffic.
pub open spec fn spec_is_raw_io(t: EventType) -> bool {
    is_session_group(t.group) && (t.kind == KIND_RAW_INPUT || t.kind == KIND_RAW_OUTPUT)
}

/// Whether a type is recorded by the store tracer unless configured otherwise.
pub open spec fn is_default_event(t: EventType) -> bool {
    &&& !spec_is_raw_io(t)
    &&& match t.group {
        EventGroup::MessageIngest => t.kind == INGEST_HAM || t.kind == INGEST_SPAM || t.kind
            == INGEST_DUPLICATE || t.kind == INGEST_ERROR,
        EventGroup::Queue => t.kind <= QUEUE_RESCHEDULED || t.kind == QUEUE_RATE_LIMIT_EXCEEDED
            || t.kind == QUEUE_CONCURRENCY_LIMIT_EXCEEDED || t.kind == QUEUE_QUOTA_EXCEEDED,
        EventGroup::OutgoingReport => t.kind <= OUTGOING_NO_RECIPIENTS_FOUND,
        EventGroup::Auth => t.kind <= AUTH_ERROR,
        EventGroup::Smtp | EventGroup::Delivery | EventGroup::MtaSts | EventGroup::TlsRpt
        | EventGroup::Dane | EventGroup::Iprev | EventGroup::Spf | EventGroup::Dmarc
        | EventGroup::Dkim | EventGroup::MailAuth | EventGroup::Limit | EventGroup::Tls
        | EventGroup::IncomingReport | EventGroup::Sieve | EventGroup::Milter
        | EventGroup::MtaHook | EventGroup::Security => true,
        _ => false,
    }
}

impl EventGroup {
    pub fn index(&self) -> (r: u16)
        ensures
            r == group_index(*self),
            r < GROUP_COUNT,
    {
        match self {
            EventGroup::Smtp => 0,
            EventGroup::Imap => 1,
            EventGroup::Pop3 => 2,
            EventGroup::ManageSieve => 3,
            EventGroup::Http => 4,
            EventGroup::Delivery => 5,
            EventGroup::Queue => 6,
            EventGroup::MessageIngest => 7,
            EventGroup::Auth => 8,
            EventGroup::MtaSts => 9,
            EventGroup::TlsRpt => 10,
            EventGroup::Dane => 11,
            EventGroup::Iprev => 12,
            EventGroup::Spf => 13,
            EventGroup::Dmarc => 14,
            EventGroup::Dkim => 15,
            EventGroup::MailAuth => 16,
            EventGroup::Limit => 17,
            EventGroup::Tls => 18,
            EventGroup::IncomingReport => 19,
            EventGroup::OutgoingReport => 20,
            EventGroup::Sieve => 21,
            EventGroup::Milter => 22,
            EventGroup::MtaHook => 23,
            EventGroup::Security => 24,
            EventGroup::Store => 25,
            EventGroup::Telemetry => 26,
        }
    }

    pub fn size(&self) -> (r: u8)
        ensures
            r == group_size(*self),
    {
        match self {
            EventGroup::MessageIngest => 7,
            EventGroup::Queue => 12,
            EventGroup::OutgoingReport => 16,
            EventGroup::Auth => 5,
            _ => 8,
        }
    }

    pub fn is_session(&self) -> (r: bool)
        ensures
            r == is_session_group(*self),
    {
        match self {
            EventGroup::Smtp | EventGroup::Imap | EventGroup::Pop3 | EventGroup::ManageSieve
            | EventGroup::Http => true,
            _ => false,
        }
    }
}

impl EventType {
    pub fn new(group: EventGroup, kind: u8) -> (r: Self)
        ensures
            r.group == group,
            r.kind == kind,
    {
        EventType { group, kind }
    }

    pub fn code(&self) -> (r: u16)
        ensures
            r == type_code(*self),
    {
        self.group.index() * 256 + self.kind as u16
    }

    /// The type whose code is `code`, if any.
    pub fn from_code(code: u16) -> (r: Option<EventType>)
        ensures
            r.is_some() <==> code / 256 < GROUP_COUNT,
            r.is_some() ==> type_code(r.unwrap()) == code,
    {
        match group_at(code / 256) {
            Some(group) => Some(EventType { group, kind: (code % 256) as u8 }),
            None => None,
        }
    }

    pub fn is_span_end(&self) -> (r: bool)
        ensures
            r == spec_is_span_end(*self),
    {
        (self.group.is_session() || self.group == EventGroup::Delivery) && self.kind
            == KIND_SPAN_END
    }

    pub fn is_raw_io(&self) -> (r: bool)
        ensures
            r == spec_is_raw_io(*self),
    {
        self.group.is_session() && (self.kind == KIND_RAW_INPUT || self.kind == KIND_RAW_OUTPUT)
    }

    pub fn is_default(&self) -> (r: bool)
        ensures
            r == is_default_event(*self),
    {
        if self.is_raw_io() {
            return false;
        }
        match self.group {
            EventGroup::MessageIngest => self.kind == INGEST_HAM || self.kind == INGEST_SPAM
                || self.kind == INGEST_DUPLICATE || self.kind == INGEST_ERROR,
            EventGroup::Queue => self.kind <= QUEUE_RESCHEDULED || self.kind
                == QUEUE_RATE_LIMIT_EXCEEDED || self.kind == QUEUE_CONCURRENCY_LIMIT_EXCEEDED
                || self.kind == QUEUE_QUOTA_EXCEEDED,
            EventGroup::OutgoingReport => self.kind <= OUTGOING_NO_RECIPIENTS_FOUND,
            EventGroup::Auth => self.kind <= AUTH_ERROR,
            EventGroup::Smtp | EventGroup::Delivery | EventGroup::MtaSts | EventGroup::TlsRpt
            | EventGroup::Dane | EventGroup::Iprev | EventGroup::Spf | EventGroup::Dmarc
            | EventGroup::Dkim | EventGroup::MailAuth | EventGroup::Limit | EventGroup::Tls
            | EventGroup::IncomingReport | EventGroup::Sieve | EventGroup::Milter
            | EventGroup::MtaHook | EventGroup::Security => true,
            _ => false,
        }
    }

    /// Every event type of the taxonomy, by ascending code.
    pub fn variants() -> (r: Vec<EventType>)
        ensures
            forall|t: EventType| r@.contains(t) <==> is_valid_type(t),
            forall|i: int, j: int|
                0 <= i < j < r@.len() ==> type_code(r@[i]) < type_code(r@[j]),
    {
        collect_types(false)
    }
}

/// Walks the taxonomy in code order and keeps every type, or only the
/// default ones.
fn collect_types(only_default: bool) -> (r: Vec<EventType>)
    ensures
        forall|t: EventType|
            r@.contains(t) <==> (is_valid_type(t) && (only_default ==> is_default_event(t))),
        forall|i: int, j: int| 0 <= i < j < r@.len() ==> type_code(r@[i]) < type_code(r@[j]),
{
    let mut r: Vec<EventType> = Vec::new();
    let mut gi: u16 = 0;
    while gi < GROUP_COUNT
        invariant
            gi <= GROUP_COUNT,
            forall|t: EventType|
                r@.contains(t) <==> (is_valid_type(t) && (only_default ==> is_default_event(t))
                    && group_index(t.group) < gi),
            forall|i: int, j: int|
                0 <= i < j < r@.len() ==> type_code(r@[i]) < type_code(r@[j]),
            forall|i: int| 0 <= i < r@.len() ==> type_code(#[trigger] r@[i]) < gi * 256,
        decreases GROUP_COUNT - gi,
    {
        let group = group_at(gi).unwrap();
        let size = group.size();
        let mut kind: u8 = 0;
        while kind < size
            invariant
                gi < GROUP_COUNT,
                group_index(group) == gi,
                size == group_size(group),
                kind <= size,
                forall|t: EventType|
                    r@.contains(t) <==> (is_valid_type(t) && (only_default ==> is_default_event(t))
                        && (group_index(t.group) < gi || (t.group == group && t.kind < kind))),
                forall|i: int, j: int|
                    0 <= i < j < r@.len() ==> type_code(r@[i]) < type_code(r@[j]),
                forall|i: int|
                    0 <= i < r@.len() ==> type_code(#[trigger] r@[i]) < gi * 256 + kind,
            decreases size - kind,
        {
            let t = EventType { group, kind };
            if !only_default || t.is_default() {
                let ghost old_r = r@;
                r.push(t);
                assert forall|u: EventType| r@.contains(u) <==> (is_valid_type(u) && (only_default
                    ==> is_default_event(u)) && (group_index(u.group) < gi || (u.group == group
                    && u.kind < kind + 1))) by {
                    if r@.contains(u) && u != t {
                        let k = choose|k: int| 0 <= k < r@.len() && r@[k] == u;
                        assert(old_r[k] == u);
                    }
                    if u == t {
                        assert(r@[old_r.len() as int] == u);
                    } else if is_valid_type(u) && (only_default ==> is_default_event(u)) && (
                    group_index(u.group) < gi || (u.group == group && u.kind < kind + 1)) {
                        assert(old_r.contains(u));
                        let k = choose|k: int| 0 <= k < old_r.len() && old_r[k] == u;
                        assert(r@[k] == u);
                    }
                }
            } else {
                assert forall|u: EventType| r@.contains(u) <==> (is_valid_type(u) && (only_default
                    ==> is_default_event(u)) && (group_index(u.group) < gi || (u.group == group
                    && u.kind < kind + 1))) by {
                    if u.group == group && u.kind == kind {
                        assert(u == t);
                    }
                }
            }
            kind = kind + 1;
        }
        assert forall|t: EventType| r@.contains(t) <==> (is_valid_type(t) && (only_default
            ==> is_default_event(t)) && group_index(t.group) < gi + 1) by {
            if group_index(t.group) == gi {
                assert(t.group == group);
            }
        }
        gi = gi + 1;
    }
    r
}

/// Settings of the tracer that keeps spans in the store.
pub struct StoreTracer {
    /// The event types it records.
    pub events: Vec<EventType>,
}

impl StoreTracer {
    /// The event types recorded unless configured otherwise, by ascending
    /// code: every type but raw traffic, from the families that describe
    /// mail flow, with some kinds of ingestion, queueing, outgoing reports
    /// and authentication left out.
    pub fn default_events() -> (r: Vec<EventType>)
        ensures
            forall|t: EventType| r@.contains(t) <==> (is_valid_type(t) && is_default_event(t)),
            forall|i: int, j: int| 0 <= i < j < r@.len() ==> type_code(r@[i]) < type_code(r@[j]),
    {
        collect_types(true)
    }
}

/// The attribute keys that events carry.
#[derive(Debug, PartialEq, Eq, Structural, Clone, Copy, Hash)]
pub enum Key {
    QueueId,
    From,
    To,
    Domain,
    Hostname,
    RemoteIp,
    RemotePort,
    Size,
    Reason,
    Id,
}

/// The numeric code of an attribute key.
pub open spec fn key_code(k: Key) -> u16 {
    match k {
        Key::QueueId => 0,
        Key::From => 1,
        Key::To => 2,
        Key::Domain => 3,
        Key::Hostname => 4,
        Key::RemoteIp => 5,
        Key::RemotePort => 6,
        Key::Size => 7,
        Key::Reason => 8,
        Key::Id => 9,
    }
}

impl Key {
    pub fn code(&self) -> (r: u16)
        ensures
            r == key_code(*self),
    {
        match self {
            Key::QueueId => 0,
            Key::From => 1,
            Key::To => 2,
            Key::Domain => 3,
            Key::Hostname => 4,
            Key::RemoteIp => 5,
            Key::RemotePort => 6,
            Key::Size => 7,
            Key::Reason => 8,
            Key::Id => 9,
        }
    }

    /// The key whose code is `code`, if any.
    pub fn from_code(code: u16) -> (r: Option<Key>)
        ensures
            r.is_some() <==> code < 10,
            r.is_some() ==> key_code(r.unwrap()) == code,
    {
        match code {
            0 => Some(Key::QueueId),
            1 => Some(Key::From),
            2 => Some(Key::To),
            3 => Some(Key::Domain),
            4 => Some(Key::Hostname),
            5 => Some(Key::RemoteIp),
            6 => Some(Key::RemotePort),
            7 => Some(Key::Size),
            8 => Some(Key::Reason),
            9 => Some(Key::Id),
            _ => None,
        }
    }
}

/// A typed attribute value. Text is held as its UTF-8 bytes; an IPv4
/// address as its 32 bits, an IPv6 address as its 128 bits, both in
/// network order.
#[derive(Debug, Clone)]
pub enum Value {
    Text(Vec<u8>),
    UInt(u64),
    Int(i64),
    Bool(bool),
    Ipv4(u32),
    Ipv6(u128),
    Array(Vec<Vec<u8>>),
}

/// An event: its type, the span it belongs to, and its attributes in order.
#[derive(Debug, Clone)]
pub struct Event {
    pub typ: EventType,
    pub span_id: Option<u64>,
    pub keys: Vec<(Key, Value)>,
}

} // verus!
