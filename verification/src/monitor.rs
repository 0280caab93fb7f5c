//! The change monitor: a debounce state machine over bus
//! notifications, extraction of active-connection ids from the
//! nested path-list payload, and normalization of the per-connection
//! property values the collector reads from the bus.

use vstd::prelude::*;
use vstd::string::StrSliceExecFns;
use crate::addr::{ipv4_from_be, Ipv4};
use crate::connection::{Connection, ConnectionType, type_from_seq};
use crate::text::{all_digits, dec_val, parse_decimal, split_seq, split_str, str_eq};

verus! {

/// State of the change monitor: watching with a long timeout, or
/// debouncing a burst of notifications with a short one.
#[derive(Clone, Copy, PartialEq, Eq, Structural, Debug)]
pub enum MonitorState {
    Watching,
    Debouncing,
}

/// Timeout in milliseconds for the next blocking bus read in each
/// state.
pub open spec fn next_timeout_spec(s: MonitorState) -> u32 {
    match s {
        MonitorState::Watching => 1000,
        MonitorState::Debouncing => 20,
    }
}

impl MonitorState {
    /// The monitor starts out watching.
    pub fn new() -> (r: MonitorState)
        ensures
            r == MonitorState::Watching,
    {
        MonitorState::Watching
    }

    /// How long the next bus read may block: long while watching,
    /// short while a burst is being debounced.
    pub fn next_timeout(&self) -> (r: u32)
        ensures
            r == next_timeout_spec(*self),
    {
        match self {
            MonitorState::Watching => 1000,
            MonitorState::Debouncing => 20,
        }
    }
}

/// A dynamically-typed value observed on the event bus: a string, a
/// list of further values, or anything else.
pub enum BusValue {
    Str(String),
    List(Vec<BusValue>),
    Other,
}

/// Parse an unsigned 32-bit decimal value, allowing one leading `+`,
/// as `str::parse::<u32>` does.
pub open spec fn parse_u32_seq(g: Seq<char>) -> Option<u32> {
    let d = if g.len() >= 1 && g[0] == '+' {
        g.drop_first()
    } else {
        g
    };
    if d.len() >= 1 && all_digits(d) && dec_val(d) <= u32::MAX {
        Some(dec_val(d) as u32)
    } else {
        None
    }
}

/// Parse an unsigned 32-bit decimal value from a string slice.
pub fn parse_u32_str(g: &str) -> (r: Option<u32>)
    ensures
        r == parse_u32_seq(g@),
{
    let n = g.unicode_len();
    let body: &str = if n >= 1 && g.get_char(0) == '+' {
        g.substring_char(1, n)
    } else {
        g
    };
    proof {
        if n >= 1 && g@[0] == '+' {
            assert(body@ =~= g@.drop_first());
        }
    }
    match parse_decimal(body) {
        Some(v) => if v <= u32::MAX as u64 {
            Some(v as u32)
        } else {
            None
        },
        None => None,
    }
}

/// The trailing segment of a slash-separated object path, parsed as a
/// decimal id.
pub open spec fn path_id_seq(s: Seq<char>) -> Option<u32> {
    let gs = split_seq(s, '/');
    parse_u32_seq(gs[gs.len() - 1])
}

/// Extract the id at the end of a bus object path, if its trailing
/// segment is a decimal number.
pub fn path_trailing_id(s: &str) -> (r: Option<u32>)
    ensures
        r == path_id_seq(s@),
{
    let gs = split_str(s, '/');
    proof {
        crate::text::lemma_split_seq_len(s@, '/');
        assert(gs.deep_view()[gs@.len() - 1] == gs@[gs@.len() - 1]@);
    }
    let lastidx = gs.len() - 1;
    parse_u32_str(gs[lastidx].as_str())
}

/// Ids found among the string entries of one inner path list, in
/// order; entries that are not strings or do not end in a decimal
/// segment are dropped.
pub open spec fn inner_ids(items: Seq<BusValue>) -> Seq<u32>
    decreases items.len(),
{
    if items.len() == 0 {
        Seq::empty()
    } else {
        let init = inner_ids(items.drop_last());
        match items.last() {
            BusValue::Str(s) => match path_id_seq(s@) {
                Some(n) => init.push(n),
                None => init,
            },
            _ => init,
        }
    }
}

/// Ids found in a nested list-of-lists payload: entries of the outer
/// list that are themselves lists contribute their inner ids, in
/// order; anything else is dropped.
pub open spec fn outer_ids(items: Seq<BusValue>) -> Seq<u32>
    decreases items.len(),
{
    if items.len() == 0 {
        Seq::empty()
    } else {
        let init = outer_ids(items.drop_last());
        match items.last() {
            BusValue::List(inner) => init + inner_ids(inner@),
            _ => init,
        }
    }
}

/// Ids carried by an active-connection payload: nothing unless the
/// payload is a list.
pub open spec fn extract_ids_spec(v: BusValue) -> Seq<u32> {
    match v {
        BusValue::List(items) => outer_ids(items@),
        _ => Seq::empty(),
    }
}

/// Extract the active-connection ids from a payload value.
#[verifier::loop_isolation(false)]
pub fn extract_ids(v: &BusValue) -> (r: Vec<u32>)
    ensures
        r@ == extract_ids_spec(*v),
{
    let mut out: Vec<u32> = Vec::new();
    match v {
        BusValue::List(items) => {
            let ghost itemsv = items@;
            let mut i: usize = 0;
            while i < items.len()
                invariant
                    0 <= i <= itemsv.len(),
                    itemsv == items@,
                    out@ == outer_ids(itemsv.take(i as int)),
                decreases itemsv.len() - i,
            {
                proof {
                    assert(itemsv.take(i as int + 1).drop_last() =~= itemsv.take(i as int));
                    assert(itemsv.take(i as int + 1).last() == itemsv[i as int]);
                }
                match &items[i] {
                    BusValue::List(inner) => {
                        let ghost innerv = inner@;
                        let ghost base = out@;
                        let mut k: usize = 0;
                        while k < inner.len()
                            invariant
                                0 <= k <= innerv.len(),
                                innerv == inner@,
                                out@ == base + inner_ids(innerv.take(k as int)),
                            decreases innerv.len() - k,
                        {
                            proof {
                                assert(innerv.take(k as int + 1).drop_last() =~= innerv.take(
                                    k as int,
                                ));
                                assert(innerv.take(k as int + 1).last() == innerv[k as int]);
                            }
                            match &inner[k] {
                                BusValue::Str(s) => {
                                    match path_trailing_id(s.as_str()) {
                                        Some(n) => {
                                            out.push(n);
                                            proof {
                                                assert(out@ =~= base + inner_ids(innerv.take(
                                                    k as int + 1,
                                                )));
                                            }
                                        },
                                        None => {
                                            proof {
                                                assert(out@ =~= base + inner_ids(innerv.take(
                                                    k as int + 1,
                                                )));
                                            }
                                        },
                                    }
                                },
                                _ => {
                                    proof {
                                        assert(out@ =~= base + inner_ids(innerv.take(k as int + 1)));
                                    }
                                },
                            }
                            k = k + 1;
                        }
                        proof {
                            assert(innerv.take(innerv.len() as int) =~= innerv);
                            assert(out@ =~= outer_ids(itemsv.take(i as int + 1)));
                        }
                    },
                    _ => {
                        proof {
                            assert(out@ =~= outer_ids(itemsv.take(i as int + 1)));
                        }
                    },
                }
                i = i + 1;
            }
            proof {
                assert(itemsv.take(itemsv.len() as int) =~= itemsv);
            }
        },
        _ => {},
    }
    out
}

/// Value under the first entry of the bag whose key equals `k`.
pub open spec fn bag_lookup(bag: Seq<(String, BusValue)>, k: Seq<char>) -> Option<BusValue>
    decreases bag.len(),
{
    if bag.len() == 0 {
        None
    } else if bag[0].0@ == k {
        Some(bag[0].1)
    } else {
        bag_lookup(bag.drop_first(), k)
    }
}

proof fn lemma_bag_lookup_none(bag: Seq<(String, BusValue)>, k: Seq<char>)
    requires
        forall|j: int| 0 <= j < bag.len() ==> (#[trigger] bag[j]).0@ != k,
    ensures
        bag_lookup(bag, k) is None,
    decreases bag.len(),
{
    if bag.len() > 0 {
        assert(forall|j: int| 0 <= j < bag.drop_first().len() ==> (#[trigger] bag.drop_first()[j])
            == bag[j + 1]);
        lemma_bag_lookup_none(bag.drop_first(), k);
    }
}

proof fn lemma_bag_lookup_first(bag: Seq<(String, BusValue)>, k: Seq<char>, h: int)
    requires
        0 <= h < bag.len(),
        bag[h].0@ == k,
        forall|j: int| 0 <= j < h ==> (#[trigger] bag[j]).0@ != k,
    ensures
        bag_lookup(bag, k) == Some(bag[h].1),
    decreases h,
{
    if h > 0 {
        assert(forall|j: int| 0 <= j < bag.drop_first().len() ==> (#[trigger] bag.drop_first()[j])
            == bag[j + 1]);
        lemma_bag_lookup_first(bag.drop_first(), k, h - 1);
    }
}

/// One observation delivered to the monitor: either the bus read
/// timed out, or a signal arrived, possibly carrying a readable
/// property bag.
pub enum MonitorEvent {
    Timeout,
    Message(Option<Vec<(String, BusValue)>>),
}

/// The change monitor.  It coalesces bursts of change notifications:
/// a signal that reports a change to the active-connection set starts
/// (or extends) a short debounce window, and a quiet window commits
/// the most recently observed id list as one batch.
pub struct Monitor {
    pub state: MonitorState,
    pub pending: Option<BusValue>,
}

/// How one observation changes the monitor and what it commits.
///
/// On a message the monitor first re-enters `Watching`; if the bag
/// holds an `ActiveConnections` entry it keeps that payload and
/// debounces.  On a timeout while debouncing it commits the ids of
/// the kept payload when that payload is a list, and otherwise keeps
/// debouncing with nothing pending.  A timeout while watching changes
/// nothing.
pub open spec fn step_relation(
    pre: Monitor,
    event: MonitorEvent,
    post: Monitor,
    r: Option<Vec<u32>>,
) -> bool {
    match event {
        MonitorEvent::Timeout => {
            if pre.state == MonitorState::Watching {
                post == pre && r is None
            } else {
                match pre.pending {
                    Some(v) => if v is List {
                        post.state == MonitorState::Watching && post.pending is None && (
                        r matches Some(ids) && ids@ == extract_ids_spec(v))
                    } else {
                        post.state == MonitorState::Debouncing && post.pending is None && r is None
                    },
                    None => post == pre && r is None,
                }
            }
        },
        MonitorEvent::Message(bag) => {
            r is None && (match bag {
                Some(b) => {
                    let looked = bag_lookup(b@, "ActiveConnections"@);
                    post.pending == looked && post.state == (
                    if looked is Some {
                        MonitorState::Debouncing
                    } else {
                        MonitorState::Watching
                    })
                },
                None => post.pending is None && post.state == MonitorState::Watching,
            })
        },
    }
}

impl Monitor {
    /// A monitor that is watching with nothing pending.
    pub fn new() -> (r: Monitor)
        ensures
            r.state == MonitorState::Watching,
            r.pending is None,
    {
        Monitor { state: MonitorState::Watching, pending: None }
    }

    /// Feed one observation to the monitor; a returned id list is a
    /// committed batch of active-connection ids.
    #[verifier::loop_isolation(false)]
    pub fn step(&mut self, event: MonitorEvent) -> (r: Option<Vec<u32>>)
        ensures
            step_relation(*old(self), event, *final(self), r),
    {
        match event {
            MonitorEvent::Timeout => {
                match self.state {
                    MonitorState::Watching => None,
                    MonitorState::Debouncing => {
                        let p = self.pending.take();
                        match p {
                            None => None,
                            Some(v) => {
                                match &v {
                                    BusValue::List(_) => {
                                        self.state = MonitorState::Watching;
                                        Some(extract_ids(&v))
                                    },
                                    _ => None,
                                }
                            },
                        }
                    },
                }
            },
            MonitorEvent::Message(bag) => {
                self.state = MonitorState::Watching;
                self.pending = None;
                match bag {
                    None => None,
                    Some(mut b) => {
                        let ghost bv = b@;
                        let n = b.len();
                        let mut i: usize = 0;
                        let mut hit: Option<usize> = None;
                        while i < n
                            invariant
                                0 <= i <= n,
                                n == b@.len(),
                                match hit {
                                    None => forall|jj: int|
                                        0 <= jj < i ==> (#[trigger] bv[jj]).0@
                                            != "ActiveConnections"@,
                                    Some(h) => 0 <= h < i && bv[h as int].0@
                                        == "ActiveConnections"@ && (forall|jj: int|
                                        0 <= jj < h ==> (#[trigger] bv[jj]).0@
                                            != "ActiveConnections"@),
                                },
                            decreases n - i,
                        {
                            if hit.is_none() {
                                if str_eq(b[i].0.as_str(), "ActiveConnections") {
                                    hit = Some(i);
                                }
                            }
                            i = i + 1;
                        }
                        match hit {
                            None => {
                                proof {
                                    lemma_bag_lookup_none(bv, "ActiveConnections"@);
                                }
                                None
                            },
                            Some(h) => {
                                proof {
                                    lemma_bag_lookup_first(bv, "ActiveConnections"@, h as int);
                                }
                                let entry = b.remove(h);
                                self.state = MonitorState::Debouncing;
                                self.pending = Some(entry.1);
                                None
                            },
                        }
                    },
                }
            },
        }
    }
}

/// Byte order reversal of a 32-bit value: the bus hands addresses
/// over with their bytes reversed relative to host order.
pub open spec fn swap_u32(v: u32) -> u32 {
    ((v & 0xff000000) >> 24) | ((v & 0x00ff0000) >> 8) | ((v & 0x0000ff00) << 8) | ((v & 0x000000ff)
        << 24)
}

/// Reverse the byte order of a 32-bit value.
pub fn reverse_u32_order(i: u32) -> (r: u32)
    ensures
        r == swap_u32(i),
{
    ((i & 0xff000000) >> 24) | ((i & 0x00ff0000) >> 8) | ((i & 0x0000ff00) << 8) | ((i & 0x000000ff)
        << 24)
}

/// The address carried by a 32-bit property value: its bytes arrive
/// reversed, so the lowest byte is the first octet.
pub open spec fn ipv4_from_nm(v: u32) -> Ipv4 {
    Ipv4 {
        o0: (v & 0xff) as u8,
        o1: ((v >> 8) & 0xff) as u8,
        o2: ((v >> 16) & 0xff) as u8,
        o3: ((v >> 24) & 0xff) as u8,
    }
}

proof fn lemma_swap_then_be(v: u32)
    ensures
        ipv4_from_be(swap_u32(v)) == ipv4_from_nm(v),
{
    assert((((v & 0xff000000) >> 24) | ((v & 0x00ff0000) >> 8) | ((v & 0x0000ff00) << 8) | ((v
        & 0x000000ff) << 24)) >> 24 == (v & 0xff)) by (bit_vector);
    assert(((((v & 0xff000000) >> 24) | ((v & 0x00ff0000) >> 8) | ((v & 0x0000ff00) << 8) | ((v
        & 0x000000ff) << 24)) >> 16) & 0xff == ((v >> 8) & 0xff)) by (bit_vector);
    assert(((((v & 0xff000000) >> 24) | ((v & 0x00ff0000) >> 8) | ((v & 0x0000ff00) << 8) | ((v
        & 0x000000ff) << 24)) >> 8) & 0xff == ((v >> 16) & 0xff)) by (bit_vector);
    assert((((v & 0xff000000) >> 24) | ((v & 0x00ff0000) >> 8) | ((v & 0x0000ff00) << 8) | ((v
        & 0x000000ff) << 24)) & 0xff == ((v >> 24) & 0xff)) by (bit_vector);
}

/// Assemble a connection from the property values read for one
/// active-connection id: classify the type string, append the search
/// domains after the explicit domains, and convert the byte-reversed
/// 32-bit nameserver and address words into addresses.  The prefix
/// length keeps only the low byte of its 32-bit word.
#[verifier::loop_isolation(false)]
pub fn build_connection(
    id: String,
    con_type: &str,
    is_default: bool,
    domains: Vec<String>,
    searches: Vec<String>,
    nameservers: &Vec<u32>,
    addresses: &Vec<(u32, u32)>,
) -> (c: Connection)
    ensures
        c@.id == id@,
        c@.con_type == type_from_seq(con_type@),
        c@.is_default == is_default,
        c@.domains == domains.deep_view() + searches.deep_view(),
        c@.nameservers == nameservers@.map_values(|v: u32| ipv4_from_nm(v)),
        c@.addresses == addresses@.map_values(|p: (u32, u32)| (ipv4_from_nm(p.0), (p.1 & 0xff) as u8)),
{
    let ghost dv = domains.deep_view();
    let ghost sv = searches.deep_view();
    let mut doms = domains;
    let mut srch = searches;
    doms.append(&mut srch);
    proof {
        assert(doms.deep_view() =~= dv + sv);
    }
    let mut ns: Vec<Ipv4> = Vec::new();
    let mut i: usize = 0;
    while i < nameservers.len()
        invariant
            0 <= i <= nameservers@.len(),
            ns@.len() == i,
            forall|j: int| 0 <= j < i ==> #[trigger] ns@[j] == ipv4_from_nm(nameservers@[j]),
        decreases nameservers@.len() - i,
    {
        let w = reverse_u32_order(nameservers[i]);
        proof {
            lemma_swap_then_be(nameservers@[i as int]);
        }
        ns.push(Ipv4::from_be_u32(w));
        i = i + 1;
    }
    let mut addrs: Vec<(Ipv4, u8)> = Vec::new();
    let mut k: usize = 0;
    while k < addresses.len()
        invariant
            0 <= k <= addresses@.len(),
            addrs@.len() == k,
            forall|j: int| 0 <= j < k ==> #[trigger] addrs@[j] == (
                ipv4_from_nm(addresses@[j].0),
                (addresses@[j].1 & 0xff) as u8,
            ),
        decreases addresses@.len() - k,
    {
        let (aw, pw) = addresses[k];
        let w = reverse_u32_order(aw);
        proof {
            lemma_swap_then_be(aw);
            assert(pw & 0xff <= 0xff) by (bit_vector);
        }
        addrs.push((Ipv4::from_be_u32(w), (pw & 0xff) as u8));
        k = k + 1;
    }
    let c = Connection {
        id,
        con_type: ConnectionType::from_str(con_type),
        is_default,
        addresses: addrs,
        nameservers: ns,
        domains: doms,
    };
    proof {
        assert(c@.nameservers =~= nameservers@.map_values(|v: u32| ipv4_from_nm(v)));
        assert(c@.addresses =~= addresses@.map_values(
            |p: (u32, u32)| (ipv4_from_nm(p.0), (p.1 & 0xff) as u8),
        ));
    }
    c
}

} // verus!
