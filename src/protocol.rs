use vstd::prelude::*;

verus! {

/// The network protocol a listener speaks.
#[derive(Debug, PartialEq, Eq, Structural, Hash, Clone, Copy)]
pub enum ServerProtocol {
    Smtp,
    Lmtp,
    Imap,
    Pop3,
    Http,
    ManageSieve,
}

/// The lower-case name of a protocol.
pub open spec fn protocol_name(p: ServerProtocol) -> Seq<char> {
    match p {
        ServerProtocol::Smtp => "smtp"@,
        ServerProtocol::Lmtp => "lmtp"@,
        ServerProtocol::Imap => "imap"@,
        ServerProtocol::Pop3 => "pop3"@,
        ServerProtocol::Http => "http"@,
        ServerProtocol::ManageSieve => "managesieve"@,
    }
}

impl ServerProtocol {
    pub fn as_str(&self) -> (r: &'static str)
        ensures
            r@ == protocol_name(*self),
    {
        match self {
            ServerProtocol::Smtp => "smtp",
            ServerProtocol::Lmtp => "lmtp",
            ServerProtocol::Imap => "imap",
            ServerProtocol::Http => "http",
            ServerProtocol::Pop3 => "pop3",
            ServerProtocol::ManageSieve => "managesieve",
        }
    }
}

impl Default for ServerProtocol {
    fn default() -> (r: Self)
        ensures
            r == ServerProtocol::Smtp,
    {
        ServerProtocol::Smtp
    }
}

} // verus!
