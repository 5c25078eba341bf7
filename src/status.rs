use vstd::prelude::*;

verus! {

/// Status octet carried by every message.
#[derive(Clone, Copy, Debug, PartialEq, Eq, Structural)]
pub enum Status {
    /// Announce self to network.
    Announce,
    /// Request local availability.
    Ping,
    /// Provide local availability.
    Pong,
    /// Request a peer's key.
    RequestKey,
    /// Provide a peer's key.
    ProvideKey,
    /// Request relay availability.
    RequestRelay,
    /// Provide relay availability.
    ProvideRelay,
    /// Relayed message.
    Relay,
    /// Payload too large.
    TooLarge,
    /// No acknowledgement within the time frame.
    Timeout,
    /// A relay could not deliver.
    RelayFailure,
    /// Hints for a long running request.
    EarlyHints,
    /// A path is no longer valid.
    Redirect,
    /// Data received successfully.
    Acknowledge,
    /// Non-authoritative information.
    NonAuthorative,
    /// Already reported.
    AlreadyReported,
    /// Could not process the entity.
    UnprocessableEntity,
    /// Unauthorized.
    Unauthorized,
    /// Forbidden.
    Forbidden,
    /// Not found.
    NotFound,
    /// Generic server failure.
    ServerError,
    /// I am a teapot.
    Teapot,
    /// Any other octet.
    Custom(u8),
}

/// Category of a status octet.
#[derive(Clone, Copy, Debug, PartialEq, Eq, Structural)]
pub enum StatusType {
    /// Codes 1 to 14.
    Routing,
    /// Codes 15 to 20.
    RoutingError,
    /// Codes 21 to 30.
    Hints,
    /// Codes 31 to 40.
    Oks,
    /// Codes 41 to 50.
    ClientErrors,
    /// Codes 51 to 60.
    ServerErrors,
    /// Unbound or custom codes: 0 and 61 to 254.
    Unknown,
    /// Code 255.
    Teapot,
}

/// The octet that stands for a status on the wire.
pub open spec fn status_code(s: Status) -> u8 {
    match s {
        Status::Announce => 1,
        Status::Ping => 2,
        Status::Pong => 3,
        Status::RequestKey => 4,
        Status::ProvideKey => 5,
        Status::RequestRelay => 6,
        Status::ProvideRelay => 7,
        Status::Relay => 8,
        Status::TooLarge => 15,
        Status::Timeout => 16,
        Status::RelayFailure => 17,
        Status::EarlyHints => 21,
        Status::Redirect => 22,
        Status::Acknowledge => 31,
        Status::NonAuthorative => 32,
        Status::AlreadyReported => 33,
        Status::UnprocessableEntity => 41,
        Status::Unauthorized => 42,
        Status::Forbidden => 43,
        Status::NotFound => 44,
        Status::ServerError => 51,
        Status::Teapot => 255,
        Status::Custom(c) => c,
    }
}

/// A status is standard when it is one of the named codes.
pub open spec fn is_standard(s: Status) -> bool {
    !(s is Custom)
}

/// The codes that have a name of their own.
pub open spec fn is_standard_code(c: u8) -> bool {
    exists|s: Status| is_standard(s) && status_code(s) == c
}

/// The band that a code falls in.
pub open spec fn band_of(c: u8) -> StatusType {
    if 1 <= c <= 14 {
        StatusType::Routing
    } else if 15 <= c <= 20 {
        StatusType::RoutingError
    } else if 21 <= c <= 30 {
        StatusType::Hints
    } else if 31 <= c <= 40 {
        StatusType::Oks
    } else if 41 <= c <= 50 {
        StatusType::ClientErrors
    } else if 51 <= c <= 60 {
        StatusType::ServerErrors
    } else if c == 255 {
        StatusType::Teapot
    } else {
        StatusType::Unknown
    }
}

/// The category of a status: the band of its code.
pub open spec fn status_type(s: Status) -> StatusType {
    band_of(status_code(s))
}

/// A status is ok when its category is routing, hints or oks.
pub open spec fn status_is_ok(s: Status) -> bool {
    let t = status_type(s);
    t == StatusType::Routing || t == StatusType::Hints || t == StatusType::Oks
}

/// The status that an octet read from the wire stands for: the named status
/// with that code, else a custom one.
pub open spec fn status_of_code(c: u8) -> Status {
    if is_standard_code(c) {
        choose|s: Status| is_standard(s) && status_code(s) == c
    } else {
        Status::Custom(c)
    }
}

impl Status {
    /// The octet of this status.
    pub fn as_u8(&self) -> (r: u8)
        ensures
            r == status_code(*self),
    {
        match self {
            Status::Announce => 1u8,
            Status::Ping => 2u8,
            Status::Pong => 3u8,
            Status::RequestKey => 4u8,
            Status::ProvideKey => 5u8,
            Status::RequestRelay => 6u8,
            Status::ProvideRelay => 7u8,
            Status::Relay => 8u8,
            Status::TooLarge => 15u8,
            Status::Timeout => 16u8,
            Status::RelayFailure => 17u8,
            Status::EarlyHints => 21u8,
            Status::Redirect => 22u8,
            Status::Acknowledge => 31u8,
            Status::NonAuthorative => 32u8,
            Status::AlreadyReported => 33u8,
            Status::UnprocessableEntity => 41u8,
            Status::Unauthorized => 42u8,
            Status::Forbidden => 43u8,
            Status::NotFound => 44u8,
            Status::ServerError => 51u8,
            Status::Teapot => 255u8,
            Status::Custom(c) => *c,
        }
    }

    /// The category of this status: the band of its code.
    pub fn as_type(&self) -> (r: StatusType)
        ensures
            r == status_type(*self),
    {
        let c = self.as_u8();
        if 1 <= c && c <= 14 {
            StatusType::Routing
        } else if 15 <= c && c <= 20 {
            StatusType::RoutingError
        } else if 21 <= c && c <= 30 {
            StatusType::Hints
        } else if 31 <= c && c <= 40 {
            StatusType::Oks
        } else if 41 <= c && c <= 50 {
            StatusType::ClientErrors
        } else if 51 <= c && c <= 60 {
            StatusType::ServerErrors
        } else if c == 255 {
            StatusType::Teapot
        } else {
            StatusType::Unknown
        }
    }

    /// Whether this status belongs to the routing, hints or oks category.
    pub fn is_ok(&self) -> (r: bool)
        ensures
            r == status_is_ok(*self),
    {
        match self.as_type() {
            StatusType::Routing | StatusType::Hints | StatusType::Oks => true,
            _ => false,
        }
    }

    /// The status that an octet read from the wire stands for.
    pub fn from_u8(c: u8) -> (r: Status)
        ensures
            r == status_of_code(c),
            status_code(r) == c,
    {
        let r = match c {
            1 => Status::Announce,
            2 => Status::Ping,
            3 => Status::Pong,
            4 => Status::RequestKey,
            5 => Status::ProvideKey,
            6 => Status::RequestRelay,
            7 => Status::ProvideRelay,
            8 => Status::Relay,
            15 => Status::TooLarge,
            16 => Status::Timeout,
            17 => Status::RelayFailure,
            21 => Status::EarlyHints,
            22 => Status::Redirect,
            31 => Status::Acknowledge,
            32 => Status::NonAuthorative,
            33 => Status::AlreadyReported,
            41 => Status::UnprocessableEntity,
            42 => Status::Unauthorized,
            43 => Status::Forbidden,
            44 => Status::NotFound,
            51 => Status::ServerError,
            255 => Status::Teapot,
            _ => Status::Custom(c),
        };
        proof {
            lemma_standard_codes_unique(r);
        }
        r
    }
}

/// Two named statuses never share a code, so a status reads back from its
/// code as itself unless it is a custom status that borrows a named code.
pub proof fn lemma_standard_codes_unique(s: Status)
    ensures
        is_standard(s) ==> status_of_code(status_code(s)) == s,
        is_standard(s) ==> is_standard_code(status_code(s)),
        !is_standard(s) && !is_standard_code(status_code(s)) ==> status_of_code(status_code(s)) == s,
{
    if is_standard(s) {
        assert(is_standard_code(status_code(s)));
        let t = choose|t: Status| is_standard(t) && status_code(t) == status_code(s);
        assert(t == s);
    }
}

} // verus!
