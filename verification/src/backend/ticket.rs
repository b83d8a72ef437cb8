//! Connecting with a ticket that the user types or pastes: what an
//! endpoint ticket's text names, and what the ticket flow does with the
//! command it waits for.

use vstd::prelude::*;

use crate::frontend::TuiCommand;

verus! {

/// One address of a peer, by kind, in its text form (as its `Display`
/// writes it): a relay server's URL, an IP socket address, or a custom
/// transport address. `Other` holds the debug form of an address of a kind
/// that the `iroh` version used does not have.
#[derive(Debug)]
pub enum TicketAddr {
    Relay(String),
    Ip(String),
    Custom(String),
    Other(String),
}

/// The mathematical form of an address.
pub enum TicketAddrView {
    Relay(Seq<char>),
    Ip(Seq<char>),
    Custom(Seq<char>),
    Other(Seq<char>),
}

impl View for TicketAddr {
    type V = TicketAddrView;

    open spec fn view(&self) -> TicketAddrView {
        match self {
            TicketAddr::Relay(s) => TicketAddrView::Relay(s@),
            TicketAddr::Ip(s) => TicketAddrView::Ip(s@),
            TicketAddr::Custom(s) => TicketAddrView::Custom(s@),
            TicketAddr::Other(s) => TicketAddrView::Other(s@),
        }
    }
}

/// The peer a ticket names: its endpoint identifier's 32 bytes and its
/// addresses.
#[derive(Debug)]
pub struct TicketTarget {
    pub id: [u8; 32],
    pub addrs: Vec<TicketAddr>,
}

/// The mathematical form of a ticket's peer.
pub struct TicketTargetView {
    pub id: Seq<u8>,
    pub addrs: Seq<TicketAddrView>,
}

impl View for TicketTarget {
    type V = TicketTargetView;

    open spec fn view(&self) -> TicketTargetView {
        TicketTargetView { id: self.id@, addrs: self.addrs@.map_values(|a: TicketAddr| a@) }
    }
}

/// The peer that the text of an endpoint ticket names, or `None` where the
/// text is no endpoint ticket (as `iroh_tickets` decodes it).
pub uninterp spec fn spec_parse_endpoint_ticket(s: Seq<char>) -> Option<TicketTargetView>;

/// `EndpointTicket::from_str` of `iroh_tickets`: decodes the ticket's text
/// (its kind prefix, then base32 of the postcard encoding of the address),
/// a pure function of the text. The peer's identifier and addresses are
/// handed out as plain values, each address by kind with its `Display` text;
/// `TransportAddr` is marked non-exhaustive, so a last arm keeps the debug
/// form of any further kind (the version used has none).
#[verifier::external_body]
fn parse_endpoint_ticket(s: &str) -> (r: Option<TicketTarget>)
    ensures
        match r {
            Some(t) => spec_parse_endpoint_ticket(s@) == Some(t@),
            None => spec_parse_endpoint_ticket(s@) is None,
        },
{
    let ticket: iroh_tickets::endpoint::EndpointTicket = s.parse().ok()?;
    let addr = ticket.endpoint_addr();
    let addrs = addr.addrs.iter().map(|a| match a {
        iroh::TransportAddr::Relay(u) => TicketAddr::Relay(u.to_string()),
        iroh::TransportAddr::Ip(ip) => TicketAddr::Ip(ip.to_string()),
        iroh::TransportAddr::Custom(c) => TicketAddr::Custom(c.to_string()),
        other => TicketAddr::Other(format!("{other:?}")),
    }).collect();
    Some(TicketTarget { id: *addr.id.as_bytes(), addrs })
}

/// The text of the endpoint ticket for a peer, or `None` where the plain
/// values name no `iroh` address (as `iroh` and `iroh_tickets` decide it).
pub uninterp spec fn spec_endpoint_ticket_text(t: TicketTargetView) -> Option<Seq<char>>;

/// `EndpointTicket::new` of `iroh_tickets`, then its `Display`: builds the
/// `iroh` address from the plain values (`PublicKey::from_bytes` and the
/// `FromStr` of each address kind, any of which may refuse its input; an
/// address of an unknown kind is refused too) and writes the ticket's text,
/// a pure function of the values.
#[verifier::external_body]
fn endpoint_ticket_text(target: &TicketTarget) -> (r: Option<String>)
    ensures
        match r {
            Some(s) => spec_endpoint_ticket_text(target@) == Some(s@),
            None => spec_endpoint_ticket_text(target@) is None,
        },
{
    let id = iroh::EndpointId::from_bytes(&target.id).ok()?;
    let addrs = target.addrs.iter().map(|a| match a {
        TicketAddr::Relay(u) => u.parse().ok().map(iroh::TransportAddr::Relay),
        TicketAddr::Ip(ip) => ip.parse().ok().map(iroh::TransportAddr::Ip),
        TicketAddr::Custom(c) => c.parse().ok().map(iroh::TransportAddr::Custom),
        TicketAddr::Other(_) => None,
    }).collect::<Option<Vec<_>>>()?;
    let addr = iroh::EndpointAddr::from_parts(id, addrs);
    Some(iroh_tickets::endpoint::EndpointTicket::new(addr).to_string())
}

/// The ticket text to show for a peer (see `spec_endpoint_ticket_text`).
pub fn ticket_text(target: &TicketTarget) -> (r: Option<String>)
    ensures
        match r {
            Some(s) => spec_endpoint_ticket_text(target@) == Some(s@),
            None => spec_endpoint_ticket_text(target@) is None,
        },
{
    endpoint_ticket_text(target)
}

/// Why the ticket flow got no peer.
#[derive(Debug, PartialEq, Eq, Structural)]
pub enum TicketError {
    /// The text is no endpoint ticket.
    Unparsable,
    /// A command other than a ticket or a shutdown arrived (or the command
    /// channel closed).
    UnexpectedCommand,
}

/// The peer named by a ticket's text, or `Unparsable`.
pub fn ticket_from_text(s: &str) -> (r: Result<TicketTarget, TicketError>)
    ensures
        match spec_parse_endpoint_ticket(s@) {
            Some(t) => r matches Ok(x) && x@ == t,
            None => r matches Err(e) && e == TicketError::Unparsable,
        },
{
    match parse_endpoint_ticket(s) {
        Some(t) => Ok(t),
        None => Err(TicketError::Unparsable),
    }
}

/// What the sender does with the command it waited for: a ticket gives its
/// peer (or `Unparsable`), a shutdown gives no peer, and anything else is an
/// unexpected command.
pub fn ticket_target(cmd: Option<TuiCommand>) -> (r: Result<Option<TicketTarget>, TicketError>)
    ensures
        match cmd {
            Some(TuiCommand::TicketInput(text)) => match spec_parse_endpoint_ticket(text@) {
                Some(t) => r matches Ok(Some(x)) && x@ == t,
                None => r matches Err(e) && e == TicketError::Unparsable,
            },
            Some(TuiCommand::Shutdown) => r matches Ok(None),
            _ => r matches Err(e) && e == TicketError::UnexpectedCommand,
        },
{
    match cmd {
        Some(TuiCommand::TicketInput(text)) => match ticket_from_text(text.as_str()) {
            Ok(t) => Ok(Some(t)),
            Err(e) => Err(e),
        },
        Some(TuiCommand::Shutdown) => Ok(None),
        _ => Err(TicketError::UnexpectedCommand),
    }
}

} // verus!
