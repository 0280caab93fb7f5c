//! The strict connection model: classification of free-text connection
//! types, and normalization of loosely-typed connection records into
//! `Connection` values with parsed addresses and nameservers.

use vstd::prelude::*;
use crate::addr::{Ipv4, parse_address, parse_address_seq, parse_ipv4, parse_ipv4_seq};
use crate::text::{contains_seq, str_contains};

verus! {

/// Kind of a network connection, derived from the free-text type
/// string the system reports.  The kind doubles as a priority: when
/// several connections claim the same zone, the one whose kind has the
/// lowest rank wins.
#[derive(Clone, Copy, PartialEq, Eq, Structural, Debug)]
pub enum ConnectionType {
    Ethernet,
    VPN,
    WiFi,
    Other,
}

/// Priority rank of a connection kind: Ethernet is preferred over
/// VPN, VPN over WiFi, and everything over Other.
pub open spec fn rank_spec(t: ConnectionType) -> nat {
    match t {
        ConnectionType::Ethernet => 0,
        ConnectionType::VPN => 1,
        ConnectionType::WiFi => 2,
        ConnectionType::Other => 3,
    }
}

/// Classification of a free-text connection type: the substrings
/// `ethernet`, `wireless` and `vpn` are tested in that order and the
/// first match wins.
pub open spec fn type_from_seq(s: Seq<char>) -> ConnectionType {
    if contains_seq(s, "ethernet"@) {
        ConnectionType::Ethernet
    } else if contains_seq(s, "wireless"@) {
        ConnectionType::WiFi
    } else if contains_seq(s, "vpn"@) {
        ConnectionType::VPN
    } else {
        ConnectionType::Other
    }
}

impl ConnectionType {
    /// Numeric priority rank; lower is preferred.
    pub fn rank(&self) -> (r: u8)
        ensures
            r as nat == rank_spec(*self),
    {
        match self {
            ConnectionType::Ethernet => 0,
            ConnectionType::VPN => 1,
            ConnectionType::WiFi => 2,
            ConnectionType::Other => 3,
        }
    }

    /// Classify a free-text connection type string.
    pub fn from_str(s: &str) -> (r: ConnectionType)
        ensures
            r == type_from_seq(s@),
    {
        if str_contains(s, "ethernet") {
            ConnectionType::Ethernet
        } else if str_contains(s, "wireless") {
            ConnectionType::WiFi
        } else if str_contains(s, "vpn") {
            ConnectionType::VPN
        } else {
            ConnectionType::Other
        }
    }
}

/// Mathematical view of a connection.
pub struct ConnectionV {
    pub id: Seq<char>,
    pub con_type: ConnectionType,
    pub is_default: bool,
    pub addresses: Seq<(Ipv4, u8)>,
    pub nameservers: Seq<Ipv4>,
    pub domains: Seq<Seq<char>>,
}

/// One active network connection with its DNS-relevant attributes.
pub struct Connection {
    /// Display name; not necessarily unique.
    pub id: String,
    /// Kind of the connection, used as its priority.
    pub con_type: ConnectionType,
    /// Whether this connection carries the host's default route.
    pub is_default: bool,
    /// Interface addresses with their CIDR prefix lengths.
    pub addresses: Vec<(Ipv4, u8)>,
    /// Nameservers this connection advertises.
    pub nameservers: Vec<Ipv4>,
    /// Domain suffixes the nameservers are preferred for.
    pub domains: Vec<String>,
}

impl View for Connection {
    type V = ConnectionV;

    open spec fn view(&self) -> ConnectionV {
        ConnectionV {
            id: self.id@,
            con_type: self.con_type,
            is_default: self.is_default,
            addresses: self.addresses@,
            nameservers: self.nameservers@,
            domains: self.domains.deep_view(),
        }
    }
}

impl DeepView for Connection {
    type V = ConnectionV;

    open spec fn deep_view(&self) -> ConnectionV {
        self.view()
    }
}

/// The connection every field of which is empty or the least
/// preferred value.
pub open spec fn default_connection() -> ConnectionV {
    ConnectionV {
        id: Seq::empty(),
        con_type: ConnectionType::Other,
        is_default: false,
        addresses: Seq::empty(),
        nameservers: Seq::empty(),
        domains: Seq::empty(),
    }
}

impl Default for Connection {
    /// A connection with no attributes at all.
    fn default() -> (r: Connection)
        ensures
            r@ == default_connection(),
    {
        let r = Connection {
            id: String::new(),
            con_type: ConnectionType::Other,
            is_default: false,
            addresses: Vec::new(),
            nameservers: Vec::new(),
            domains: Vec::new(),
        };
        proof {
            assert(r@.domains =~= default_connection().domains);
            assert(r@ == default_connection());
        }
        r
    }
}

/// An ordered collection of connections: the unit of hand-off between
/// the property collector and the zone deriver.
pub struct Connections {
    pub con: Vec<Connection>,
}

/// Mathematical view of a loosely-typed connection record.
pub struct RawConnectionV {
    pub id: Seq<char>,
    pub con_type: Seq<char>,
    pub is_default: bool,
    pub addresses: Seq<Seq<char>>,
    pub nameservers: Seq<Seq<char>>,
    pub domains: Seq<Seq<char>>,
}

/// A loosely-typed connection record, as it arrives from outside:
/// every field still a plain string.
pub struct RawConnection {
    pub id: String,
    pub con_type: String,
    pub is_default: bool,
    pub addresses: Vec<String>,
    pub nameservers: Vec<String>,
    pub domains: Vec<String>,
}

impl View for RawConnection {
    type V = RawConnectionV;

    open spec fn view(&self) -> RawConnectionV {
        RawConnectionV {
            id: self.id@,
            con_type: self.con_type@,
            is_default: self.is_default,
            addresses: self.addresses.deep_view(),
            nameservers: self.nameservers.deep_view(),
            domains: self.domains.deep_view(),
        }
    }
}

impl DeepView for RawConnection {
    type V = RawConnectionV;

    open spec fn deep_view(&self) -> RawConnectionV {
        self.view()
    }
}

/// The `address/prefix` strings that parse, in input order.
pub open spec fn parsed_addresses(raws: Seq<Seq<char>>) -> Seq<(Ipv4, u8)>
    decreases raws.len(),
{
    if raws.len() == 0 {
        Seq::empty()
    } else {
        let init = parsed_addresses(raws.drop_last());
        match parse_address_seq(raws.last()) {
            Some(a) => init.push(a),
            None => init,
        }
    }
}

/// The nameserver strings that parse as IPv4 addresses, in input order.
pub open spec fn parsed_nameservers(raws: Seq<Seq<char>>) -> Seq<Ipv4>
    decreases raws.len(),
{
    if raws.len() == 0 {
        Seq::empty()
    } else {
        let init = parsed_nameservers(raws.drop_last());
        match parse_ipv4_seq(raws.last()) {
            Some(a) => init.push(a),
            None => init,
        }
    }
}

/// Normalization of one loosely-typed record: classify the type
/// string, keep the addresses and nameservers that parse, drop the
/// rest silently, and keep id, default flag and domains as given.
pub open spec fn normalize_spec(r: RawConnectionV) -> ConnectionV {
    ConnectionV {
        id: r.id,
        con_type: type_from_seq(r.con_type),
        is_default: r.is_default,
        addresses: parsed_addresses(r.addresses),
        nameservers: parsed_nameservers(r.nameservers),
        domains: r.domains,
    }
}

#[verifier::loop_isolation(false)]
fn parse_addresses(raws: &Vec<String>) -> (r: Vec<(Ipv4, u8)>)
    ensures
        r@ == parsed_addresses(raws.deep_view()),
{
    let ghost all = raws.deep_view();
    let mut out: Vec<(Ipv4, u8)> = Vec::new();
    let mut i: usize = 0;
    while i < raws.len()
        invariant
            0 <= i <= raws@.len(),
            out@ == parsed_addresses(all.take(i as int)),
        decreases raws@.len() - i,
    {
        proof {
            assert(all.take(i as int + 1).drop_last() =~= all.take(i as int));
            assert(all.take(i as int + 1).last() == raws@[i as int]@);
        }
        match parse_address(raws[i].as_str()) {
            Some(a) => out.push(a),
            None => {},
        }
        i = i + 1;
    }
    proof {
        assert(all.take(raws@.len() as int) =~= all);
    }
    out
}

#[verifier::loop_isolation(false)]
fn parse_nameservers(raws: &Vec<String>) -> (r: Vec<Ipv4>)
    ensures
        r@ == parsed_nameservers(raws.deep_view()),
{
    let ghost all = raws.deep_view();
    let mut out: Vec<Ipv4> = Vec::new();
    let mut i: usize = 0;
    while i < raws.len()
        invariant
            0 <= i <= raws@.len(),
            out@ == parsed_nameservers(all.take(i as int)),
        decreases raws@.len() - i,
    {
        proof {
            assert(all.take(i as int + 1).drop_last() =~= all.take(i as int));
            assert(all.take(i as int + 1).last() == raws@[i as int]@);
        }
        match parse_ipv4(raws[i].as_str()) {
            Some(a) => out.push(a),
            None => {},
        }
        i = i + 1;
    }
    proof {
        assert(all.take(raws@.len() as int) =~= all);
    }
    out
}

/// Copy a vector of strings, preserving contents.
fn clone_string_vec(v: &Vec<String>) -> (r: Vec<String>)
    ensures
        r.deep_view() == v.deep_view(),
        r@.len() == v@.len(),
{
    let mut out: Vec<String> = Vec::new();
    let mut i: usize = 0;
    while i < v.len()
        invariant
            0 <= i <= v@.len(),
            out@.len() == i,
            forall|j: int| 0 <= j < i ==> out@[j] == v@[j],
        decreases v@.len() - i,
    {
        out.push(v[i].clone());
        i = i + 1;
    }
    proof {
        assert(out.deep_view() =~= v.deep_view());
    }
    out
}

/// Normalize a sequence of loosely-typed records into strict
/// connections.  Every record yields a connection; unparsable
/// addresses and nameservers inside a record are dropped silently.
#[verifier::loop_isolation(false)]
pub fn parse_connections(raw: &Vec<RawConnection>) -> (r: Vec<Connection>)
    ensures
        r@.len() == raw@.len(),
        forall|i: int| 0 <= i < raw@.len() ==> r.deep_view()[i] == normalize_spec(
            raw.deep_view()[i],
        ),
{
    let mut out: Vec<Connection> = Vec::new();
    let mut i: usize = 0;
    while i < raw.len()
        invariant
            0 <= i <= raw@.len(),
            out@.len() == i,
            forall|j: int| 0 <= j < i ==> out.deep_view()[j] == normalize_spec(
                raw.deep_view()[j],
            ),
        decreases raw@.len() - i,
    {
        let rc = &raw[i];
        let c = Connection {
            id: rc.id.clone(),
            con_type: ConnectionType::from_str(rc.con_type.as_str()),
            is_default: rc.is_default,
            addresses: parse_addresses(&rc.addresses),
            nameservers: parse_nameservers(&rc.nameservers),
            domains: clone_string_vec(&rc.domains),
        };
        proof {
            assert(c@ == normalize_spec(raw.deep_view()[i as int]));
        }
        let ghost pre = out.deep_view();
        proof {
            assert(forall|j: int| 0 <= j < i ==> pre[j] == out.deep_view()[j] && pre[j]
                == normalize_spec(raw.deep_view()[j]));
        }
        out.push(c);
        proof {
            assert forall|j: int| 0 <= j < i + 1 implies out.deep_view()[j] == normalize_spec(
                raw.deep_view()[j],
            ) by {
                if j < i {
                    assert(out.deep_view()[j] == pre[j]);
                } else {
                    assert(out.deep_view()[i as int] == c@);
                }
            }
        }
        i = i + 1;
    }
    out
}

} // verus!
