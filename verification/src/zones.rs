//! Zone derivation: turning a sequence of connections into
//! deduplicated forward and reverse DNS zones with a deterministic
//! priority policy.
//!
//! Both derive functions emit one zone per (connection, key) pair and
//! then keep, for every distinct key, the first-encountered zone of
//! minimal connection-type rank.  The selection is modelled by the
//! `winners_upto` recursion, which mirrors a single left-to-right pass
//! with in-place replacement on strictly better rank.

use vstd::prelude::*;
use vstd::pervasive::VecAdditionalExecFns;
use vstd::string::StrSliceExecFns;
use crate::addr::Ipv4;
use crate::connection::{Connection, ConnectionType, ConnectionV, rank_spec};

verus! {

/// Mathematical view of a forward zone.
pub struct ForwardZoneV {
    pub domain: Seq<char>,
    pub nameservers: Seq<Ipv4>,
    pub con_type: ConnectionType,
}

/// A domain suffix whose queries should go to specific nameservers.
pub struct ForwardZone {
    pub domain: String,
    pub nameservers: Vec<Ipv4>,
    pub con_type: ConnectionType,
}

impl View for ForwardZone {
    type V = ForwardZoneV;

    open spec fn view(&self) -> ForwardZoneV {
        ForwardZoneV {
            domain: self.domain@,
            nameservers: self.nameservers@,
            con_type: self.con_type,
        }
    }
}

impl DeepView for ForwardZone {
    type V = ForwardZoneV;

    open spec fn deep_view(&self) -> ForwardZoneV {
        self.view()
    }
}

/// Mathematical view of a reverse zone.
pub struct ReverseZoneV {
    pub zone: Seq<char>,
    pub nameservers: Seq<Ipv4>,
    pub con_type: ConnectionType,
}

/// A private-range reverse-lookup zone and the nameservers answering
/// for it.
pub struct ReverseZone {
    pub zone: &'static str,
    pub nameservers: Vec<Ipv4>,
    pub con_type: ConnectionType,
}

impl View for ReverseZone {
    type V = ReverseZoneV;

    open spec fn view(&self) -> ReverseZoneV {
        ReverseZoneV {
            zone: self.zone@,
            nameservers: self.nameservers@,
            con_type: self.con_type,
        }
    }
}

impl DeepView for ReverseZone {
    type V = ReverseZoneV;

    open spec fn deep_view(&self) -> ReverseZoneV {
        self.view()
    }
}

/// Reverse-lookup zone name for an address in 172.16/12.
pub open spec fn zone_172_seq(o1: u8) -> Seq<char> {
    if o1 == 16 {
        "16.172.in-addr.arpa"@
    } else if o1 == 17 {
        "17.172.in-addr.arpa"@
    } else if o1 == 18 {
        "18.172.in-addr.arpa"@
    } else if o1 == 19 {
        "19.172.in-addr.arpa"@
    } else if o1 == 20 {
        "20.172.in-addr.arpa"@
    } else if o1 == 21 {
        "21.172.in-addr.arpa"@
    } else if o1 == 22 {
        "22.172.in-addr.arpa"@
    } else if o1 == 23 {
        "23.172.in-addr.arpa"@
    } else if o1 == 24 {
        "24.172.in-addr.arpa"@
    } else if o1 == 25 {
        "25.172.in-addr.arpa"@
    } else if o1 == 26 {
        "26.172.in-addr.arpa"@
    } else if o1 == 27 {
        "27.172.in-addr.arpa"@
    } else if o1 == 28 {
        "28.172.in-addr.arpa"@
    } else if o1 == 29 {
        "29.172.in-addr.arpa"@
    } else if o1 == 30 {
        "30.172.in-addr.arpa"@
    } else {
        "31.172.in-addr.arpa"@
    }
}

/// Classification of an address into a private reverse-lookup zone:
/// 10/8, 172.16/12 (scoped per second octet) and 192.168/16 are
/// recognized, everything else contributes no zone.
pub open spec fn reverse_zone_seq(a: Ipv4) -> Option<Seq<char>> {
    if a.o0 == 10 {
        Some("10.in-addr.arpa"@)
    } else if a.o0 == 172 && 16 <= a.o1 <= 31 {
        Some(zone_172_seq(a.o1))
    } else if a.o0 == 192 && a.o1 == 168 {
        Some("168.192.in-addr.arpa"@)
    } else {
        None
    }
}

/// The address lies in one of the recognized private ranges.
pub open spec fn in_private_range(a: Ipv4) -> bool {
    a.o0 == 10 || (a.o0 == 172 && 16 <= a.o1 <= 31) || (a.o0 == 192 && a.o1 == 168)
}

/// Only private-range addresses are classified.
pub proof fn lemma_classification_private(a: Ipv4)
    ensures
        reverse_zone_seq(a) is Some <==> in_private_range(a),
{
}

/// Map an address to the name of the private reverse-lookup zone it
/// belongs to, if any.
pub fn ipv4_to_reverse_zone(addr: &Ipv4) -> (r: Option<&'static str>)
    ensures
        match r {
            Some(z) => reverse_zone_seq(*addr) == Some(z@),
            None => reverse_zone_seq(*addr) is None,
        },
{
    match addr.o0 {
        10 => Some("10.in-addr.arpa"),
        172 => match addr.o1 {
            16 => Some("16.172.in-addr.arpa"),
            17 => Some("17.172.in-addr.arpa"),
            18 => Some("18.172.in-addr.arpa"),
            19 => Some("19.172.in-addr.arpa"),
            20 => Some("20.172.in-addr.arpa"),
            21 => Some("21.172.in-addr.arpa"),
            22 => Some("22.172.in-addr.arpa"),
            23 => Some("23.172.in-addr.arpa"),
            24 => Some("24.172.in-addr.arpa"),
            25 => Some("25.172.in-addr.arpa"),
            26 => Some("26.172.in-addr.arpa"),
            27 => Some("27.172.in-addr.arpa"),
            28 => Some("28.172.in-addr.arpa"),
            29 => Some("29.172.in-addr.arpa"),
            30 => Some("30.172.in-addr.arpa"),
            31 => Some("31.172.in-addr.arpa"),
            _ => None,
        },
        192 => if addr.o1 == 168 {
            Some("168.192.in-addr.arpa")
        } else {
            None
        },
        _ => None,
    }
}

/// The forward zone a connection contributes for one of its domains.
pub open spec fn forward_zone_of(c: ConnectionV, d: Seq<char>) -> ForwardZoneV {
    ForwardZoneV { domain: d, nameservers: c.nameservers, con_type: c.con_type }
}

/// Forward zones one connection contributes: one per domain.
pub open spec fn conn_forward_zones(c: ConnectionV) -> Seq<ForwardZoneV> {
    c.domains.map_values(|d: Seq<char>| forward_zone_of(c, d))
}

/// All forward zones the connections contribute, before deduplication.
pub open spec fn emitted_forward_zones(cs: Seq<ConnectionV>) -> Seq<ForwardZoneV>
    decreases cs.len(),
{
    if cs.len() == 0 {
        Seq::empty()
    } else {
        emitted_forward_zones(cs.drop_last()) + conn_forward_zones(cs.last())
    }
}

/// The reverse zone a connection contributes for one of its addresses.
pub open spec fn reverse_zone_of(c: ConnectionV, z: Seq<char>) -> ReverseZoneV {
    ReverseZoneV { zone: z, nameservers: c.nameservers, con_type: c.con_type }
}

/// Reverse zones contributed by a prefix of one connection's
/// addresses: one per classified address.
pub open spec fn addr_reverse_zones(c: ConnectionV, addrs: Seq<(Ipv4, u8)>) -> Seq<ReverseZoneV>
    decreases addrs.len(),
{
    if addrs.len() == 0 {
        Seq::empty()
    } else {
        let init = addr_reverse_zones(c, addrs.drop_last());
        match reverse_zone_seq(addrs.last().0) {
            Some(z) => init.push(reverse_zone_of(c, z)),
            None => init,
        }
    }
}

/// Reverse zones one connection contributes.
pub open spec fn conn_reverse_zones(c: ConnectionV) -> Seq<ReverseZoneV> {
    addr_reverse_zones(c, c.addresses)
}

/// All reverse zones the connections contribute, before deduplication.
pub open spec fn emitted_reverse_zones(cs: Seq<ConnectionV>) -> Seq<ReverseZoneV>
    decreases cs.len(),
{
    if cs.len() == 0 {
        Seq::empty()
    } else {
        emitted_reverse_zones(cs.drop_last()) + conn_reverse_zones(cs.last())
    }
}

/// First position in `acc` holding an index whose key equals `k`,
/// or -1 when no entry of `acc` does.
pub open spec fn find_key(acc: Seq<int>, ks: Seq<Seq<char>>, k: Seq<char>) -> int
    decreases acc.len(),
{
    if acc.len() == 0 {
        -1
    } else if ks[acc[0]] == k {
        0
    } else {
        let r = find_key(acc.drop_first(), ks, k);
        if r < 0 {
            -1
        } else {
            r + 1
        }
    }
}

pub proof fn lemma_find_key(acc: Seq<int>, ks: Seq<Seq<char>>, k: Seq<char>)
    ensures
        find_key(acc, ks, k) < 0 ==> forall|j: int| 0 <= j < acc.len() ==> ks[#[trigger] acc[j]]
            != k,
        find_key(acc, ks, k) >= 0 ==> 0 <= find_key(acc, ks, k) < acc.len() && ks[acc[find_key(
            acc,
            ks,
            k,
        )]] == k && (forall|j: int| 0 <= j < find_key(acc, ks, k) ==> ks[#[trigger] acc[j]] != k),
    decreases acc.len(),
{
    if acc.len() == 0 {
    } else if ks[acc[0]] == k {
    } else {
        lemma_find_key(acc.drop_first(), ks, k);
        let r = find_key(acc, ks, k);
        if r >= 0 {
            assert forall|j: int| 0 <= j < r implies ks[#[trigger] acc[j]] != k by {
                if j > 0 {
                    assert(ks[acc.drop_first()[j - 1]] != k);
                }
            }
        } else {
            assert forall|j: int| 0 <= j < acc.len() implies ks[#[trigger] acc[j]] != k by {
                if j > 0 {
                    assert(ks[acc.drop_first()[j - 1]] != k);
                }
            }
        }
    }
}

/// Indices of the surviving entries after one left-to-right pass over
/// the first `n` keys: a new key is appended, a key seen before
/// replaces its surviving entry exactly when its rank is strictly
/// smaller.
pub open spec fn winners_upto(ks: Seq<Seq<char>>, rs: Seq<nat>, n: int) -> Seq<int>
    decreases n,
{
    if n <= 0 {
        Seq::empty()
    } else {
        let acc = winners_upto(ks, rs, n - 1);
        let f = find_key(acc, ks, ks[n - 1]);
        if f < 0 {
            acc.push(n - 1)
        } else if rs[n - 1] < rs[acc[f]] {
            acc.update(f, n - 1)
        } else {
            acc
        }
    }
}

/// Indices of the surviving entries over all keys.
pub open spec fn winners(ks: Seq<Seq<char>>, rs: Seq<nat>) -> Seq<int> {
    winners_upto(ks, rs, ks.len() as int)
}

/// Some surviving entry carries the same key as position `i`.
pub open spec fn key_covered(ks: Seq<Seq<char>>, w: Seq<int>, i: int) -> bool {
    exists|j: int| 0 <= j < w.len() && ks[#[trigger] w[j]] == ks[i]
}

/// The surviving entries have pairwise distinct keys, each has the
/// minimal rank among the positions sharing its key, and every key
/// that occurs is represented.
pub proof fn lemma_winners_props(ks: Seq<Seq<char>>, rs: Seq<nat>, n: int)
    requires
        ks.len() == rs.len(),
        0 <= n <= ks.len(),
    ensures
        ({
            let w = winners_upto(ks, rs, n);
            &&& forall|j: int| 0 <= j < w.len() ==> 0 <= #[trigger] w[j] < n
            &&& forall|j1: int, j2: int|
                0 <= j1 < j2 < w.len() ==> ks[#[trigger] w[j1]] != ks[#[trigger] w[j2]]
            &&& forall|j: int, i: int|
                #![trigger rs[i], w[j]]
                0 <= j < w.len() && 0 <= i < n && ks[i] == ks[w[j]] ==> rs[w[j]] <= rs[i]
            &&& forall|i: int| 0 <= i < n ==> #[trigger] key_covered(ks, w, i)
        }),
    decreases n,
{
    if n > 0 {
        let i = n - 1;
        let acc = winners_upto(ks, rs, n - 1);
        let w = winners_upto(ks, rs, n);
        lemma_winners_props(ks, rs, n - 1);
        lemma_find_key(acc, ks, ks[i]);
        let f = find_key(acc, ks, ks[i]);
        if f < 0 {
            assert(w == acc.push(i));
            assert forall|j1: int, j2: int| 0 <= j1 < j2 < w.len() implies ks[#[trigger] w[j1]]
                != ks[#[trigger] w[j2]] by {
                if j2 == acc.len() {
                    assert(ks[acc[j1]] != ks[i]);
                }
            }
            assert forall|j: int, i2: int|
                #![trigger rs[i2], w[j]]
                0 <= j < w.len() && 0 <= i2 < n && ks[i2] == ks[w[j]] implies rs[w[j]] <= rs[
                i2] by {
                if j < acc.len() {
                    if i2 == i {
                        assert(ks[acc[j]] != ks[i]);
                    }
                } else {
                    if i2 < n - 1 {
                        assert(key_covered(ks, acc, i2));
                        let j2 = choose|j2: int|
                            0 <= j2 < acc.len() && ks[#[trigger] acc[j2]] == ks[i2];
                        assert(ks[acc[j2]] != ks[i]);
                        assert(false);
                    }
                }
            }
            assert forall|i2: int| 0 <= i2 < n implies #[trigger] key_covered(ks, w, i2) by {
                if i2 < n - 1 {
                    assert(key_covered(ks, acc, i2));
                    let j2 = choose|j2: int|
                        0 <= j2 < acc.len() && ks[#[trigger] acc[j2]] == ks[i2];
                    assert(ks[w[j2]] == ks[i2]);
                } else {
                    assert(ks[w[acc.len() as int]] == ks[i2]);
                }
            }
        } else {
            assert(0 <= f < acc.len() && ks[acc[f]] == ks[i]);
            if rs[i] < rs[acc[f]] {
                assert(w == acc.update(f, i));
                assert forall|j1: int, j2: int| 0 <= j1 < j2 < w.len() implies ks[#[trigger] w[j1]]
                    != ks[#[trigger] w[j2]] by {
                    assert(ks[w[j1]] == ks[acc[j1]]);
                    assert(ks[w[j2]] == ks[acc[j2]]);
                }
                assert forall|j: int, i2: int|
                    #![trigger rs[i2], w[j]]
                    0 <= j < w.len() && 0 <= i2 < n && ks[i2] == ks[w[j]] implies rs[w[j]] <= rs[
                    i2] by {
                    if j == f {
                        if i2 < n - 1 {
                            assert(rs[acc[f]] <= rs[i2]);
                        }
                    } else {
                        assert(ks[w[j]] == ks[acc[j]]);
                        if i2 == i {
                            assert(ks[acc[j]] != ks[acc[f]]);
                            assert(false);
                        }
                    }
                }
                assert forall|i2: int| 0 <= i2 < n implies #[trigger] key_covered(ks, w, i2) by {
                    if i2 < n - 1 {
                        assert(key_covered(ks, acc, i2));
                        let j2 = choose|j2: int| 0 <= j2 < acc.len() && ks[#[trigger] acc[j2]]
                            == ks[i2];
                        assert(ks[w[j2]] == ks[i2]);
                    } else {
                        assert(ks[w[f]] == ks[i2]);
                    }
                }
            } else {
                assert(w == acc);
                assert forall|j: int, i2: int|
                    #![trigger rs[i2], w[j]]
                    0 <= j < w.len() && 0 <= i2 < n && ks[i2] == ks[w[j]] implies rs[w[j]] <= rs[
                    i2] by {
                    if i2 == i {
                        if j != f {
                            assert(ks[acc[j]] == ks[acc[f]]);
                            assert(false);
                        }
                    }
                }
                assert forall|i2: int| 0 <= i2 < n implies #[trigger] key_covered(ks, w, i2) by {
                    if i2 < n - 1 {
                    } else {
                        assert(ks[w[f]] == ks[i2]);
                    }
                }
            }
        }
    }
}

/// When all keys are pairwise distinct, every position survives in
/// place: the pass is the identity.
pub proof fn lemma_winners_identity(ks: Seq<Seq<char>>, rs: Seq<nat>, n: int)
    requires
        ks.len() == rs.len(),
        0 <= n <= ks.len(),
        forall|i1: int, i2: int| 0 <= i1 < i2 < ks.len() ==> ks[i1] != ks[i2],
    ensures
        winners_upto(ks, rs, n) =~= Seq::new(n as nat, |j: int| j),
    decreases n,
{
    if n > 0 {
        let i = n - 1;
        let acc = winners_upto(ks, rs, n - 1);
        lemma_winners_identity(ks, rs, n - 1);
        lemma_find_key(acc, ks, ks[i]);
        let f = find_key(acc, ks, ks[i]);
        if f >= 0 {
            assert(ks[acc[f]] == ks[i]);
            assert(acc[f] == f);
            assert(false);
        }
        assert(winners_upto(ks, rs, n) =~= Seq::new(n as nat, |j: int| j));
    }
}

/// The entries of `zs` at the positions listed in `w`, in order.
pub open spec fn select_by_indices<T>(zs: Seq<T>, w: Seq<int>) -> Seq<T> {
    Seq::new(w.len(), |j: int| zs[w[j]])
}

/// Domain key of each emitted forward zone.
pub open spec fn forward_keys(zs: Seq<ForwardZoneV>) -> Seq<Seq<char>> {
    zs.map_values(|z: ForwardZoneV| z.domain)
}

/// Rank of each emitted forward zone.
pub open spec fn forward_ranks(zs: Seq<ForwardZoneV>) -> Seq<nat> {
    zs.map_values(|z: ForwardZoneV| rank_spec(z.con_type))
}

/// Deduplicate forward zones by domain under the priority policy.
pub open spec fn dedup_forward(zs: Seq<ForwardZoneV>) -> Seq<ForwardZoneV> {
    select_by_indices(zs, winners(forward_keys(zs), forward_ranks(zs)))
}

/// The deduplicated forward zones of a connection sequence.
pub open spec fn derive_forward_spec(cs: Seq<ConnectionV>) -> Seq<ForwardZoneV> {
    dedup_forward(emitted_forward_zones(cs))
}

/// Zone-name key of each emitted reverse zone.
pub open spec fn reverse_keys(zs: Seq<ReverseZoneV>) -> Seq<Seq<char>> {
    zs.map_values(|z: ReverseZoneV| z.zone)
}

/// Rank of each emitted reverse zone.
pub open spec fn reverse_ranks(zs: Seq<ReverseZoneV>) -> Seq<nat> {
    zs.map_values(|z: ReverseZoneV| rank_spec(z.con_type))
}

/// Deduplicate reverse zones by zone name under the priority policy.
pub open spec fn dedup_reverse(zs: Seq<ReverseZoneV>) -> Seq<ReverseZoneV> {
    select_by_indices(zs, winners(reverse_keys(zs), reverse_ranks(zs)))
}

/// The deduplicated reverse zones of a connection sequence.
pub open spec fn derive_reverse_spec(cs: Seq<ConnectionV>) -> Seq<ReverseZoneV> {
    dedup_reverse(emitted_reverse_zones(cs))
}

/// Copy a vector of addresses, preserving contents.
fn clone_ipv4_vec(v: &Vec<Ipv4>) -> (r: Vec<Ipv4>)
    ensures
        r@ == v@,
{
    let mut out: Vec<Ipv4> = Vec::new();
    let mut i: usize = 0;
    while i < v.len()
        invariant
            0 <= i <= v@.len(),
            out@ == v@.take(i as int),
        decreases v@.len() - i,
    {
        out.push(v[i]);
        proof {
            assert(out@ =~= v@.take(i as int + 1));
        }
        i = i + 1;
    }
    proof {
        assert(v@.take(v@.len() as int) =~= v@);
    }
    out
}

#[verifier::loop_isolation(false)]
fn emit_forward_zones(connections: &Vec<Connection>) -> (r: Vec<ForwardZone>)
    ensures
        r.deep_view() == emitted_forward_zones(connections.deep_view()),
{
    let ghost cs = connections.deep_view();
    let mut out: Vec<ForwardZone> = Vec::new();
    let mut i: usize = 0;
    while i < connections.len()
        invariant
            0 <= i <= cs.len(),
            out.deep_view() == emitted_forward_zones(cs.take(i as int)),
        decreases cs.len() - i,
    {
        let c = &connections[i];
        let ghost cv = cs[i as int];
        let mut di: usize = 0;
        while di < c.domains.len()
            invariant
                0 <= di <= cv.domains.len(),
                c == connections@[i as int],
                out.deep_view() == emitted_forward_zones(cs.take(i as int)) + conn_forward_zones(
                    cv,
                ).take(di as int),
            decreases cv.domains.len() - di,
        {
            let ghost pre = out.deep_view();
            let z = ForwardZone {
                domain: c.domains[di].clone(),
                nameservers: clone_ipv4_vec(&c.nameservers),
                con_type: c.con_type,
            };
            proof {
                assert(z@ == conn_forward_zones(cv)[di as int]);
            }
            out.push(z);
            proof {
                assert(out.deep_view() =~= pre.push(conn_forward_zones(cv)[di as int]));
                assert(out.deep_view() =~= emitted_forward_zones(cs.take(i as int))
                    + conn_forward_zones(cv).take(di as int + 1));
            }
            di = di + 1;
        }
        proof {
            assert(conn_forward_zones(cv).take(cv.domains.len() as int) =~= conn_forward_zones(
                cv,
            ));
            assert(cs.take(i as int + 1).drop_last() =~= cs.take(i as int));
            assert(cs.take(i as int + 1).last() == cv);
            assert(out.deep_view() == emitted_forward_zones(cs.take(i as int + 1)));
        }
        i = i + 1;
    }
    proof {
        assert(cs.take(cs.len() as int) =~= cs);
    }
    out
}

#[verifier::loop_isolation(false)]
fn emit_reverse_zones(connections: &Vec<Connection>) -> (r: Vec<ReverseZone>)
    ensures
        r.deep_view() == emitted_reverse_zones(connections.deep_view()),
{
    let ghost cs = connections.deep_view();
    let mut out: Vec<ReverseZone> = Vec::new();
    let mut i: usize = 0;
    while i < connections.len()
        invariant
            0 <= i <= cs.len(),
            out.deep_view() == emitted_reverse_zones(cs.take(i as int)),
        decreases cs.len() - i,
    {
        let c = &connections[i];
        let ghost cv = cs[i as int];
        let mut ai: usize = 0;
        while ai < c.addresses.len()
            invariant
                0 <= ai <= cv.addresses.len(),
                c == connections@[i as int],
                out.deep_view() == emitted_reverse_zones(cs.take(i as int)) + addr_reverse_zones(
                    cv,
                    cv.addresses.take(ai as int),
                ),
            decreases cv.addresses.len() - ai,
        {
            let ghost pre = out.deep_view();
            proof {
                assert(cv.addresses.take(ai as int + 1).drop_last() =~= cv.addresses.take(
                    ai as int,
                ));
                assert(cv.addresses.take(ai as int + 1).last() == cv.addresses[ai as int]);
            }
            match ipv4_to_reverse_zone(&c.addresses[ai].0) {
                Some(zname) => {
                    let z = ReverseZone {
                        zone: zname,
                        nameservers: clone_ipv4_vec(&c.nameservers),
                        con_type: c.con_type,
                    };
                    proof {
                        assert(z@ == reverse_zone_of(cv, zname@));
                    }
                    out.push(z);
                    proof {
                        assert(out.deep_view() =~= pre.push(reverse_zone_of(cv, zname@)));
                        assert(out.deep_view() =~= emitted_reverse_zones(cs.take(i as int))
                            + addr_reverse_zones(cv, cv.addresses.take(ai as int + 1)));
                    }
                },
                None => {
                    proof {
                        assert(out.deep_view() =~= emitted_reverse_zones(cs.take(i as int))
                            + addr_reverse_zones(cv, cv.addresses.take(ai as int + 1)));
                    }
                },
            }
            ai = ai + 1;
        }
        proof {
            assert(cv.addresses.take(cv.addresses.len() as int) =~= cv.addresses);
            assert(cs.take(i as int + 1).drop_last() =~= cs.take(i as int));
            assert(cs.take(i as int + 1).last() == cv);
            assert(out.deep_view() == emitted_reverse_zones(cs.take(i as int + 1)));
        }
        i = i + 1;
    }
    proof {
        assert(cs.take(cs.len() as int) =~= cs);
    }
    out
}

/// One pass of the priority policy over key/rank pairs, returning the
/// indices of the surviving entries in first-seen key order.
#[verifier::loop_isolation(false)]
fn dedup_indices(keys: &Vec<String>, ranks: &Vec<u8>) -> (w: Vec<usize>)
    requires
        keys@.len() == ranks@.len(),
    ensures
        w@.map_values(|u: usize| u as int) == winners(
            keys.deep_view(),
            ranks@.map_values(|r: u8| r as nat),
        ),
        forall|j: int| 0 <= j < w@.len() ==> #[trigger] w@[j] < keys@.len(),
{
    let ghost ks = keys.deep_view();
    let ghost rs = ranks@.map_values(|r: u8| r as nat);
    let mut acc: Vec<usize> = Vec::new();
    let mut i: usize = 0;
    while i < keys.len()
        invariant
            0 <= i <= keys@.len(),
            acc@.map_values(|u: usize| u as int) == winners_upto(ks, rs, i as int),
            forall|j: int| 0 <= j < acc@.len() ==> #[trigger] acc@[j] < i,
        decreases keys@.len() - i,
    {
        let ghost accg = acc@.map_values(|u: usize| u as int);
        let mut j: usize = 0;
        let mut hit: Option<usize> = None;
        while j < acc.len()
            invariant
                0 <= j <= acc@.len(),
                i < keys@.len(),
                forall|jj: int| 0 <= jj < acc@.len() ==> #[trigger] acc@[jj] < i,
                match hit {
                    None => forall|jj: int| 0 <= jj < j ==> ks[#[trigger] accg[jj]] != ks[i as int],
                    Some(h) => 0 <= h < j && ks[accg[h as int]] == ks[i as int] && (forall|jj: int|
                        0 <= jj < h ==> ks[#[trigger] accg[jj]] != ks[i as int]),
                },
            decreases acc@.len() - j,
        {
            if hit.is_none() {
                if crate::text::str_eq(keys[acc[j]].as_str(), keys[i].as_str()) {
                    hit = Some(j);
                }
            }
            j = j + 1;
        }
        proof {
            lemma_find_key(accg, ks, ks[i as int]);
        }
        match hit {
            None => {
                proof {
                    assert(find_key(accg, ks, ks[i as int]) < 0) by {
                        if find_key(accg, ks, ks[i as int]) >= 0 {
                            assert(ks[accg[find_key(accg, ks, ks[i as int])]] == ks[i as int]);
                        }
                    }
                }
                acc.push(i);
                proof {
                    assert(acc@.map_values(|u: usize| u as int) =~= accg.push(i as int));
                }
            },
            Some(h) => {
                proof {
                    assert(find_key(accg, ks, ks[i as int]) == h as int) by {
                        let f = find_key(accg, ks, ks[i as int]);
                        if f < 0 {
                            assert(ks[accg[h as int]] != ks[i as int]);
                        } else if f < h as int {
                            assert(ks[accg[f]] != ks[i as int]);
                        } else if f > h as int {
                            assert(ks[accg[h as int]] != ks[i as int]);
                        }
                    }
                }
                if ranks[i] < ranks[acc[h]] {
                    acc.set(h, i);
                    proof {
                        assert(acc@.map_values(|u: usize| u as int) =~= accg.update(
                            h as int,
                            i as int,
                        ));
                    }
                } else {
                    proof {
                        assert(acc@.map_values(|u: usize| u as int) =~= winners_upto(
                            ks,
                            rs,
                            i as int + 1,
                        ));
                    }
                }
            },
        }
        i = i + 1;
    }
    acc
}

/// Derive the forward zones of a connection sequence: one zone per
/// (connection, domain) pair, deduplicated by domain so that for each
/// domain the first-encountered zone of minimal rank survives, in
/// first-seen domain order.
#[verifier::loop_isolation(false)]
pub fn get_forward_zones(connections: &Vec<Connection>) -> (r: Vec<ForwardZone>)
    ensures
        r.deep_view() == derive_forward_spec(connections.deep_view()),
{
    let zs = emit_forward_zones(connections);
    let ghost zsv = zs.deep_view();
    let mut keys: Vec<String> = Vec::new();
    let mut ranks: Vec<u8> = Vec::new();
    let mut i: usize = 0;
    while i < zs.len()
        invariant
            0 <= i <= zs@.len(),
            keys@.len() == i,
            ranks@.len() == i,
            forall|j: int| 0 <= j < i ==> #[trigger] keys.deep_view()[j] == forward_keys(zsv)[j],
            forall|j: int| 0 <= j < i ==> #[trigger] ranks@[j] as nat == forward_ranks(zsv)[j],
        decreases zs@.len() - i,
    {
        let ghost prek = keys.deep_view();
        keys.push(zs[i].domain.clone());
        ranks.push(zs[i].con_type.rank());
        proof {
            assert(forall|j: int| 0 <= j < i ==> #[trigger] keys.deep_view()[j] == prek[j]);
            assert(keys.deep_view()[i as int] == zsv[i as int].domain);
        }
        i = i + 1;
    }
    proof {
        assert(keys.deep_view() =~= forward_keys(zsv));
        assert(ranks@.map_values(|r: u8| r as nat) =~= forward_ranks(zsv));
    }
    let w = dedup_indices(&keys, &ranks);
    let ghost wg = winners(forward_keys(zsv), forward_ranks(zsv));
    let mut out: Vec<ForwardZone> = Vec::new();
    let mut k: usize = 0;
    while k < w.len()
        invariant
            0 <= k <= w@.len(),
            out@.len() == k,
            wg == w@.map_values(|u: usize| u as int),
            forall|j: int| 0 <= j < w@.len() ==> #[trigger] w@[j] < zs@.len(),
            forall|j: int| 0 <= j < k ==> #[trigger] out.deep_view()[j] == zsv[wg[j]],
        decreases w@.len() - k,
    {
        let idx = w[k];
        let ghost preo = out.deep_view();
        let z = ForwardZone {
            domain: zs[idx].domain.clone(),
            nameservers: clone_ipv4_vec(&zs[idx].nameservers),
            con_type: zs[idx].con_type,
        };
        proof {
            assert(z@ == zsv[wg[k as int]]);
        }
        out.push(z);
        proof {
            assert(forall|j: int| 0 <= j < k ==> #[trigger] out.deep_view()[j] == preo[j]);
            assert(out.deep_view()[k as int] == zsv[wg[k as int]]);
        }
        k = k + 1;
    }
    proof {
        assert(out.deep_view() =~= select_by_indices(zsv, wg));
    }
    out
}

/// Derive the reverse zones of a connection sequence: one zone per
/// (connection, classified address) pair, deduplicated by zone name
/// under the same priority policy.
#[verifier::loop_isolation(false)]
pub fn get_reverse_zones(connections: &Vec<Connection>) -> (r: Vec<ReverseZone>)
    ensures
        r.deep_view() == derive_reverse_spec(connections.deep_view()),
{
    let zs = emit_reverse_zones(connections);
    let ghost zsv = zs.deep_view();
    let mut keys: Vec<String> = Vec::new();
    let mut ranks: Vec<u8> = Vec::new();
    let mut i: usize = 0;
    while i < zs.len()
        invariant
            0 <= i <= zs@.len(),
            keys@.len() == i,
            ranks@.len() == i,
            forall|j: int| 0 <= j < i ==> #[trigger] keys.deep_view()[j] == reverse_keys(zsv)[j],
            forall|j: int| 0 <= j < i ==> #[trigger] ranks@[j] as nat == reverse_ranks(zsv)[j],
        decreases zs@.len() - i,
    {
        let ghost prek = keys.deep_view();
        keys.push(zs[i].zone.to_owned());
        ranks.push(zs[i].con_type.rank());
        proof {
            assert(forall|j: int| 0 <= j < i ==> #[trigger] keys.deep_view()[j] == prek[j]);
            assert(keys.deep_view()[i as int] == zsv[i as int].zone);
        }
        i = i + 1;
    }
    proof {
        assert(keys.deep_view() =~= reverse_keys(zsv));
        assert(ranks@.map_values(|r: u8| r as nat) =~= reverse_ranks(zsv));
    }
    let w = dedup_indices(&keys, &ranks);
    let ghost wg = winners(reverse_keys(zsv), reverse_ranks(zsv));
    let mut out: Vec<ReverseZone> = Vec::new();
    let mut k: usize = 0;
    while k < w.len()
        invariant
            0 <= k <= w@.len(),
            out@.len() == k,
            wg == w@.map_values(|u: usize| u as int),
            forall|j: int| 0 <= j < w@.len() ==> #[trigger] w@[j] < zs@.len(),
            forall|j: int| 0 <= j < k ==> #[trigger] out.deep_view()[j] == zsv[wg[j]],
        decreases w@.len() - k,
    {
        let idx = w[k];
        let ghost preo = out.deep_view();
        let z = ReverseZone {
            zone: zs[idx].zone,
            nameservers: clone_ipv4_vec(&zs[idx].nameservers),
            con_type: zs[idx].con_type,
        };
        proof {
            assert(z@ == zsv[wg[k as int]]);
        }
        out.push(z);
        proof {
            assert(forall|j: int| 0 <= j < k ==> #[trigger] out.deep_view()[j] == preo[j]);
            assert(out.deep_view()[k as int] == zsv[wg[k as int]]);
        }
        k = k + 1;
    }
    proof {
        assert(out.deep_view() =~= select_by_indices(zsv, wg));
    }
    out
}

/// Some connection lists this zone's domain and carries exactly its
/// nameservers and kind.
pub open spec fn forward_contributed(cs: Seq<ConnectionV>, z: ForwardZoneV) -> bool {
    exists|i: int, di: int|
        0 <= i < cs.len() && 0 <= di < cs[i].domains.len() && (#[trigger] cs[i].domains[di])
            == z.domain && cs[i].nameservers == z.nameservers && cs[i].con_type == z.con_type
}

/// Some connection has an address classified into this zone's name
/// and carries exactly its nameservers and kind.
pub open spec fn reverse_contributed(cs: Seq<ConnectionV>, z: ReverseZoneV) -> bool {
    exists|i: int, ai: int|
        0 <= i < cs.len() && 0 <= ai < cs[i].addresses.len() && reverse_zone_seq(
            (#[trigger] cs[i].addresses[ai]).0,
        ) == Some(z.zone) && cs[i].nameservers == z.nameservers && cs[i].con_type == z.con_type
}

proof fn lemma_emitted_forward_has(cs: Seq<ConnectionV>, i: int, di: int)
    requires
        0 <= i < cs.len(),
        0 <= di < cs[i].domains.len(),
    ensures
        exists|m: int|
            0 <= m < emitted_forward_zones(cs).len() && #[trigger] emitted_forward_zones(cs)[m]
                == forward_zone_of(cs[i], cs[i].domains[di]),
    decreases cs.len(),
{
    let e = emitted_forward_zones(cs);
    let e0 = emitted_forward_zones(cs.drop_last());
    if i < cs.len() - 1 {
        lemma_emitted_forward_has(cs.drop_last(), i, di);
        let m = choose|m: int|
            0 <= m < e0.len() && #[trigger] e0[m] == forward_zone_of(
                cs.drop_last()[i],
                cs.drop_last()[i].domains[di],
            );
        assert(e[m] == e0[m]);
    } else {
        let m = e0.len() as int + di;
        assert(e[m] == conn_forward_zones(cs.last())[di]);
    }
}

proof fn lemma_emitted_forward_src(cs: Seq<ConnectionV>, m: int)
    requires
        0 <= m < emitted_forward_zones(cs).len(),
    ensures
        forward_contributed(cs, emitted_forward_zones(cs)[m]),
    decreases cs.len(),
{
    let e = emitted_forward_zones(cs);
    let e0 = emitted_forward_zones(cs.drop_last());
    if m < e0.len() {
        lemma_emitted_forward_src(cs.drop_last(), m);
        let (i, di) = choose|i: int, di: int|
            0 <= i < cs.drop_last().len() && 0 <= di < cs.drop_last()[i].domains.len() && (
            #[trigger] cs.drop_last()[i].domains[di]) == e0[m].domain && cs.drop_last()[
                i
            ].nameservers == e0[m].nameservers && cs.drop_last()[i].con_type == e0[m].con_type;
        assert(cs[i].domains[di] == e[m].domain);
    } else {
        let di = m - e0.len();
        let i = cs.len() - 1;
        assert(e[m] == conn_forward_zones(cs.last())[di]);
        assert(cs[i].domains[di] == e[m].domain);
    }
}

proof fn lemma_addr_reverse_has(c: ConnectionV, addrs: Seq<(Ipv4, u8)>, ai: int)
    requires
        0 <= ai < addrs.len(),
        reverse_zone_seq(addrs[ai].0) is Some,
    ensures
        exists|m: int|
            0 <= m < addr_reverse_zones(c, addrs).len() && reverse_zone_seq(addrs[ai].0) == Some(
                (#[trigger] addr_reverse_zones(c, addrs)[m]).zone,
            ) && addr_reverse_zones(c, addrs)[m].nameservers == c.nameservers && addr_reverse_zones(
                c,
                addrs,
            )[m].con_type == c.con_type,
    decreases addrs.len(),
{
    let a = addr_reverse_zones(c, addrs);
    let a0 = addr_reverse_zones(c, addrs.drop_last());
    if ai < addrs.len() - 1 {
        lemma_addr_reverse_has(c, addrs.drop_last(), ai);
        let m = choose|m: int|
            0 <= m < a0.len() && reverse_zone_seq(addrs.drop_last()[ai].0) == Some(
                (#[trigger] a0[m]).zone,
            ) && a0[m].nameservers == c.nameservers && a0[m].con_type == c.con_type;
        assert(a[m] == a0[m]);
    } else {
        let m = a.len() - 1;
        assert(a[m] == reverse_zone_of(c, reverse_zone_seq(addrs.last().0)->0));
    }
}

proof fn lemma_addr_reverse_src(c: ConnectionV, addrs: Seq<(Ipv4, u8)>, m: int)
    requires
        0 <= m < addr_reverse_zones(c, addrs).len(),
    ensures
        exists|ai: int|
            0 <= ai < addrs.len() && reverse_zone_seq((#[trigger] addrs[ai]).0) == Some(
                addr_reverse_zones(c, addrs)[m].zone,
            ),
        addr_reverse_zones(c, addrs)[m].nameservers == c.nameservers,
        addr_reverse_zones(c, addrs)[m].con_type == c.con_type,
    decreases addrs.len(),
{
    let a = addr_reverse_zones(c, addrs);
    let a0 = addr_reverse_zones(c, addrs.drop_last());
    if m < a0.len() {
        lemma_addr_reverse_src(c, addrs.drop_last(), m);
        let ai = choose|ai: int|
            0 <= ai < addrs.drop_last().len() && reverse_zone_seq(
                (#[trigger] addrs.drop_last()[ai]).0,
            ) == Some(a0[m].zone);
        assert(reverse_zone_seq(addrs[ai].0) == Some(a[m].zone));
    } else {
        let ai = addrs.len() - 1;
        assert(a[m] == reverse_zone_of(c, reverse_zone_seq(addrs.last().0)->0));
        assert(reverse_zone_seq(addrs[ai].0) == Some(a[m].zone));
    }
}

proof fn lemma_emitted_reverse_has(cs: Seq<ConnectionV>, i: int, ai: int)
    requires
        0 <= i < cs.len(),
        0 <= ai < cs[i].addresses.len(),
        reverse_zone_seq(cs[i].addresses[ai].0) is Some,
    ensures
        exists|m: int|
            0 <= m < emitted_reverse_zones(cs).len() && reverse_zone_seq(cs[i].addresses[ai].0)
                == Some((#[trigger] emitted_reverse_zones(cs)[m]).zone) && emitted_reverse_zones(
                cs,
            )[m].nameservers == cs[i].nameservers && emitted_reverse_zones(cs)[m].con_type == cs[
                i
            ].con_type,
    decreases cs.len(),
{
    let e = emitted_reverse_zones(cs);
    let e0 = emitted_reverse_zones(cs.drop_last());
    if i < cs.len() - 1 {
        lemma_emitted_reverse_has(cs.drop_last(), i, ai);
        let m = choose|m: int|
            0 <= m < e0.len() && reverse_zone_seq(cs.drop_last()[i].addresses[ai].0) == Some(
                (#[trigger] e0[m]).zone,
            ) && e0[m].nameservers == cs.drop_last()[i].nameservers && e0[m].con_type
                == cs.drop_last()[i].con_type;
        assert(e[m] == e0[m]);
    } else {
        lemma_addr_reverse_has(cs.last(), cs.last().addresses, ai);
        let a = conn_reverse_zones(cs.last());
        let m = choose|m: int|
            0 <= m < a.len() && reverse_zone_seq(cs.last().addresses[ai].0) == Some(
                (#[trigger] a[m]).zone,
            ) && a[m].nameservers == cs.last().nameservers && a[m].con_type == cs.last().con_type;
        assert(e[e0.len() + m] == a[m]);
    }
}

proof fn lemma_emitted_reverse_src(cs: Seq<ConnectionV>, m: int)
    requires
        0 <= m < emitted_reverse_zones(cs).len(),
    ensures
        reverse_contributed(cs, emitted_reverse_zones(cs)[m]),
    decreases cs.len(),
{
    let e = emitted_reverse_zones(cs);
    let e0 = emitted_reverse_zones(cs.drop_last());
    if m < e0.len() {
        lemma_emitted_reverse_src(cs.drop_last(), m);
        let (i, ai) = choose|i: int, ai: int|
            0 <= i < cs.drop_last().len() && 0 <= ai < cs.drop_last()[i].addresses.len()
                && reverse_zone_seq((#[trigger] cs.drop_last()[i].addresses[ai]).0) == Some(
                e0[m].zone,
            ) && cs.drop_last()[i].nameservers == e0[m].nameservers && cs.drop_last()[i].con_type
                == e0[m].con_type;
        assert(e[m] == e0[m]);
        assert(reverse_zone_seq(cs[i].addresses[ai].0) == Some(e[m].zone));
    } else {
        let i = cs.len() - 1;
        let a = conn_reverse_zones(cs.last());
        assert(e[m] == a[m - e0.len()]);
        lemma_addr_reverse_src(cs.last(), cs.last().addresses, m - e0.len());
        let ai = choose|ai: int|
            0 <= ai < cs.last().addresses.len() && reverse_zone_seq(
                (#[trigger] cs.last().addresses[ai]).0,
            ) == Some(a[m - e0.len()].zone);
        assert(reverse_zone_seq(cs[i].addresses[ai].0) == Some(e[m].zone));
    }
}

/// Law: the derived forward zones carry pairwise distinct domains;
/// every zone is contributed by some connection that lists its domain
/// with exactly its nameservers and kind; the surviving zone's kind
/// has minimal rank among all connections listing the domain; and
/// every listed domain is represented by exactly one zone.
pub proof fn lemma_forward_zones_law(cs: Seq<ConnectionV>)
    ensures
        ({
            let out = derive_forward_spec(cs);
            &&& forall|j1: int, j2: int|
                0 <= j1 < j2 < out.len() ==> (#[trigger] out[j1]).domain != (
                #[trigger] out[j2]).domain
            &&& forall|j: int| 0 <= j < out.len() ==> forward_contributed(cs, #[trigger] out[j])
            &&& forall|j: int, i: int, di: int|
                #![trigger out[j], cs[i].domains[di]]
                0 <= j < out.len() && 0 <= i < cs.len() && 0 <= di < cs[i].domains.len() && cs[
                    i
                ].domains[di] == out[j].domain ==> rank_spec(out[j].con_type) <= rank_spec(
                    cs[i].con_type,
                )
            &&& forall|i: int, di: int|
                0 <= i < cs.len() && 0 <= di < cs[i].domains.len() ==> exists|j: int|
                    0 <= j < out.len() && (#[trigger] out[j]).domain == (
                    #[trigger] cs[i].domains[di])
        }),
{
    let zs = emitted_forward_zones(cs);
    let ks = forward_keys(zs);
    let rs = forward_ranks(zs);
    let w = winners(ks, rs);
    let out = derive_forward_spec(cs);
    lemma_winners_props(ks, rs, ks.len() as int);
    assert forall|j1: int, j2: int| 0 <= j1 < j2 < out.len() implies (#[trigger] out[j1]).domain
        != (#[trigger] out[j2]).domain by {
        assert(ks[w[j1]] != ks[w[j2]]);
    }
    assert forall|j: int| 0 <= j < out.len() implies forward_contributed(
        cs,
        #[trigger] out[j],
    ) by {
        lemma_emitted_forward_src(cs, w[j]);
    }
    assert forall|j: int, i: int, di: int|
        #![trigger out[j], cs[i].domains[di]]
        0 <= j < out.len() && 0 <= i < cs.len() && 0 <= di < cs[i].domains.len() && cs[i].domains[
            di
        ] == out[j].domain implies rank_spec(out[j].con_type) <= rank_spec(cs[i].con_type) by {
        lemma_emitted_forward_has(cs, i, di);
        let m = choose|m: int|
            0 <= m < zs.len() && #[trigger] zs[m] == forward_zone_of(cs[i], cs[i].domains[di]);
        assert(ks[m] == ks[w[j]]);
        assert(rs[w[j]] <= rs[m]);
    }
    assert forall|i: int, di: int| 0 <= i < cs.len() && 0 <= di < cs[i].domains.len() implies
        exists|j: int|
            0 <= j < out.len() && (#[trigger] out[j]).domain == (#[trigger] cs[i].domains[di]) by {
        lemma_emitted_forward_has(cs, i, di);
        let m = choose|m: int|
            0 <= m < zs.len() && #[trigger] zs[m] == forward_zone_of(cs[i], cs[i].domains[di]);
        assert(key_covered(ks, w, m));
        let j = choose|j: int| 0 <= j < w.len() && ks[#[trigger] w[j]] == ks[m];
        assert((out[j]).domain == cs[i].domains[di]);
    }
}

/// Law: the derived reverse zones carry pairwise distinct zone names;
/// every zone is contributed by some connection with an address that
/// classifies into a recognized private range (so no zone arises from
/// an address outside 10/8, 172.16/12 and 192.168/16); the surviving
/// zone's kind has minimal rank among all contributors of its name;
/// and every classified address is represented.
pub proof fn lemma_reverse_zones_law(cs: Seq<ConnectionV>)
    ensures
        ({
            let out = derive_reverse_spec(cs);
            &&& forall|j1: int, j2: int|
                0 <= j1 < j2 < out.len() ==> (#[trigger] out[j1]).zone != (#[trigger] out[j2]).zone
            &&& forall|j: int| 0 <= j < out.len() ==> reverse_contributed(cs, #[trigger] out[j])
            &&& forall|j: int, i: int, ai: int|
                #![trigger out[j], cs[i].addresses[ai]]
                0 <= j < out.len() && 0 <= i < cs.len() && 0 <= ai < cs[i].addresses.len()
                    && reverse_zone_seq(cs[i].addresses[ai].0) == Some(out[j].zone) ==> rank_spec(
                    out[j].con_type,
                ) <= rank_spec(cs[i].con_type)
            &&& forall|i: int, ai: int|
                0 <= i < cs.len() && 0 <= ai < cs[i].addresses.len() && reverse_zone_seq(
                    (#[trigger] cs[i].addresses[ai]).0,
                ) is Some ==> exists|j: int|
                    0 <= j < out.len() && Some((#[trigger] out[j]).zone) == reverse_zone_seq(
                        cs[i].addresses[ai].0,
                    )
        }),
{
    let zs = emitted_reverse_zones(cs);
    let ks = reverse_keys(zs);
    let rs = reverse_ranks(zs);
    let w = winners(ks, rs);
    let out = derive_reverse_spec(cs);
    lemma_winners_props(ks, rs, ks.len() as int);
    assert forall|j1: int, j2: int| 0 <= j1 < j2 < out.len() implies (#[trigger] out[j1]).zone != (
    #[trigger] out[j2]).zone by {
        assert(ks[w[j1]] != ks[w[j2]]);
    }
    assert forall|j: int| 0 <= j < out.len() implies reverse_contributed(
        cs,
        #[trigger] out[j],
    ) by {
        lemma_emitted_reverse_src(cs, w[j]);
    }
    assert forall|j: int, i: int, ai: int|
        #![trigger out[j], cs[i].addresses[ai]]
        0 <= j < out.len() && 0 <= i < cs.len() && 0 <= ai < cs[i].addresses.len()
            && reverse_zone_seq(cs[i].addresses[ai].0) == Some(out[j].zone) implies rank_spec(
        out[j].con_type,
    ) <= rank_spec(cs[i].con_type) by {
        lemma_emitted_reverse_has(cs, i, ai);
        let m = choose|m: int|
            0 <= m < zs.len() && reverse_zone_seq(cs[i].addresses[ai].0) == Some(
                (#[trigger] zs[m]).zone,
            ) && zs[m].nameservers == cs[i].nameservers && zs[m].con_type == cs[i].con_type;
        assert(ks[m] == ks[w[j]]);
        assert(rs[w[j]] <= rs[m]);
    }
    assert forall|i: int, ai: int|
        0 <= i < cs.len() && 0 <= ai < cs[i].addresses.len() && reverse_zone_seq(
            (#[trigger] cs[i].addresses[ai]).0,
        ) is Some implies exists|j: int|
        0 <= j < out.len() && Some((#[trigger] out[j]).zone) == reverse_zone_seq(
            cs[i].addresses[ai].0,
        ) by {
        lemma_emitted_reverse_has(cs, i, ai);
        let m = choose|m: int|
            0 <= m < zs.len() && reverse_zone_seq(cs[i].addresses[ai].0) == Some(
                (#[trigger] zs[m]).zone,
            ) && zs[m].nameservers == cs[i].nameservers && zs[m].con_type == cs[i].con_type;
        assert(key_covered(ks, w, m));
        let j = choose|j: int| 0 <= j < w.len() && ks[#[trigger] w[j]] == ks[m];
        assert(Some(out[j].zone) == reverse_zone_seq(cs[i].addresses[ai].0));
    }
}

/// Law: deduplication is idempotent; the forward derivation is a
/// fixed point of its own dedup pass, so deriving from the same input
/// twice yields the same zone set.
pub proof fn lemma_dedup_forward_idempotent(zs: Seq<ForwardZoneV>)
    ensures
        dedup_forward(dedup_forward(zs)) == dedup_forward(zs),
{
    let out = dedup_forward(zs);
    let ks = forward_keys(zs);
    let rs = forward_ranks(zs);
    let w = winners(ks, rs);
    lemma_winners_props(ks, rs, ks.len() as int);
    let ks2 = forward_keys(out);
    let rs2 = forward_ranks(out);
    assert forall|i1: int, i2: int| 0 <= i1 < i2 < ks2.len() implies ks2[i1] != ks2[i2] by {
        assert(ks[w[i1]] != ks[w[i2]]);
    }
    lemma_winners_identity(ks2, rs2, ks2.len() as int);
    assert(dedup_forward(out) =~= out);
}

/// Law: deduplication is idempotent; the reverse derivation is a
/// fixed point of its own dedup pass, so deriving from the same input
/// twice yields the same zone set.
pub proof fn lemma_dedup_reverse_idempotent(zs: Seq<ReverseZoneV>)
    ensures
        dedup_reverse(dedup_reverse(zs)) == dedup_reverse(zs),
{
    let out = dedup_reverse(zs);
    let ks = reverse_keys(zs);
    let rs = reverse_ranks(zs);
    let w = winners(ks, rs);
    lemma_winners_props(ks, rs, ks.len() as int);
    let ks2 = reverse_keys(out);
    let rs2 = reverse_ranks(out);
    assert forall|i1: int, i2: int| 0 <= i1 < i2 < ks2.len() implies ks2[i1] != ks2[i2] by {
        assert(ks[w[i1]] != ks[w[i2]]);
    }
    lemma_winners_identity(ks2, rs2, ks2.len() as int);
    assert(dedup_reverse(out) =~= out);
}

} // verus!
