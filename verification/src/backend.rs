//! The resolver control protocol: rendering of the commands that
//! install and delete forwarding rules, parsing of rule ids out of a
//! listing response, and the line framing of responses.

use vstd::prelude::*;
use vstd::string::StrSliceExecFns;
use vstd::string::StringExecFns;
use crate::addr::{ipv4_seq, push_ipv4, Ipv4};
use crate::text::{is_digit, is_digit_char, split_seq, split_str, str_eq};
use crate::zones::{ForwardZone, ForwardZoneV, ReverseZone, ReverseZoneV};

verus! {

/// The command installing one forwarding rule: queries under `name`
/// are forwarded to the nameserver `ns`.
pub open spec fn stub_rule_seq(ns: Ipv4, name: Seq<char>) -> Seq<char> {
    "policy.add(policy.suffix(policy.STUB('"@ + ipv4_seq(ns) + "'), {todname('"@ + name
        + "')}))\n"@
}

/// The catch-all command sending everything not otherwise matched to
/// the public fallback resolver.
pub open spec fn fallback_rule_seq() -> Seq<char> {
    "policy.add(policy.all(policy.TLS_FORWARD({{'1.1.1.1', hostname='cloudflare-dns.com', ca_file='/etc/pki/tls/certs/ca-bundle.crt'}})))\n"@
}

/// The command listing the installed rules.
pub open spec fn rules_query_seq() -> Seq<char> {
    "policy.rules\n"@
}

/// The command deleting the rule with the given id.
pub open spec fn delete_rule_seq(id: Seq<char>) -> Seq<char> {
    "policy.del("@ + id + ")\n"@
}

/// Render the command installing a forward zone's rule, forwarding
/// the zone's domain to its first nameserver.
pub fn forward_rule_command(z: &ForwardZone) -> (r: String)
    requires
        z.nameservers@.len() >= 1,
    ensures
        r@ == stub_rule_seq(z.nameservers@[0], z.domain@),
{
    let mut s = String::new();
    s.append("policy.add(policy.suffix(policy.STUB('");
    push_ipv4(&mut s, z.nameservers[0]);
    s.append("'), {todname('");
    s.append(z.domain.as_str());
    s.append("')}))\n");
    proof {
        assert(s@ =~= stub_rule_seq(z.nameservers@[0], z.domain@));
    }
    s
}

/// Render the command installing a reverse zone's rule, forwarding
/// the zone's name to its first nameserver.
pub fn reverse_rule_command(z: &ReverseZone) -> (r: String)
    requires
        z.nameservers@.len() >= 1,
    ensures
        r@ == stub_rule_seq(z.nameservers@[0], z.zone@),
{
    let mut s = String::new();
    s.append("policy.add(policy.suffix(policy.STUB('");
    push_ipv4(&mut s, z.nameservers[0]);
    s.append("'), {todname('");
    s.append(z.zone);
    s.append("')}))\n");
    proof {
        assert(s@ =~= stub_rule_seq(z.nameservers@[0], z.zone@));
    }
    s
}

/// Render the catch-all fallback command.
pub fn fallback_rule_command() -> (r: String)
    ensures
        r@ == fallback_rule_seq(),
{
    String::from_str(
        "policy.add(policy.all(policy.TLS_FORWARD({{'1.1.1.1', hostname='cloudflare-dns.com', ca_file='/etc/pki/tls/certs/ca-bundle.crt'}})))\n",
    )
}

/// Render the command that lists the installed rules.
pub fn rules_query_command() -> (r: String)
    ensures
        r@ == rules_query_seq(),
{
    String::from_str("policy.rules\n")
}

/// Render the command deleting one rule.
pub fn delete_rule_command(id: &str) -> (r: String)
    ensures
        r@ == delete_rule_seq(id@),
{
    let mut s = String::new();
    s.append("policy.del(");
    s.append(id);
    s.append(")\n");
    proof {
        assert(s@ =~= delete_rule_seq(id@));
    }
    s
}

/// The full ordered command list of one apply cycle: one rule per
/// forward zone, then one per reverse zone, then the catch-all.
pub open spec fn apply_plan_spec(fwd: Seq<ForwardZoneV>, rev: Seq<ReverseZoneV>) -> Seq<Seq<char>> {
    fwd.map_values(|z: ForwardZoneV| stub_rule_seq(z.nameservers[0], z.domain)) + rev.map_values(
        |z: ReverseZoneV| stub_rule_seq(z.nameservers[0], z.zone),
    ) + seq![fallback_rule_seq()]
}

/// Render the commands of one apply cycle, in order.  Every zone must
/// carry at least one nameserver.
#[verifier::loop_isolation(false)]
pub fn apply_plan(fwd: &Vec<ForwardZone>, rev: &Vec<ReverseZone>) -> (cmds: Vec<String>)
    requires
        forall|i: int| 0 <= i < fwd@.len() ==> (#[trigger] fwd@[i]).nameservers@.len() >= 1,
        forall|i: int| 0 <= i < rev@.len() ==> (#[trigger] rev@[i]).nameservers@.len() >= 1,
    ensures
        cmds.deep_view() == apply_plan_spec(fwd.deep_view(), rev.deep_view()),
{
    let ghost fv = fwd.deep_view();
    let ghost rv = rev.deep_view();
    let mut out: Vec<String> = Vec::new();
    let mut i: usize = 0;
    while i < fwd.len()
        invariant
            0 <= i <= fv.len(),
            out@.len() == i,
            forall|j: int| 0 <= j < i ==> #[trigger] out.deep_view()[j] == stub_rule_seq(
                fv[j].nameservers[0],
                fv[j].domain,
            ),
        decreases fv.len() - i,
    {
        let ghost pre = out.deep_view();
        let c = forward_rule_command(&fwd[i]);
        out.push(c);
        proof {
            assert(forall|j: int| 0 <= j < i ==> #[trigger] out.deep_view()[j] == pre[j]);
        }
        i = i + 1;
    }
    let mut k: usize = 0;
    while k < rev.len()
        invariant
            0 <= k <= rv.len(),
            out@.len() == fv.len() + k,
            forall|j: int| 0 <= j < fv.len() ==> #[trigger] out.deep_view()[j] == stub_rule_seq(
                fv[j].nameservers[0],
                fv[j].domain,
            ),
            forall|j: int| fv.len() <= j < fv.len() + k ==> #[trigger] out.deep_view()[j]
                == stub_rule_seq(rv[j - fv.len()].nameservers[0], rv[j - fv.len()].zone),
        decreases rv.len() - k,
    {
        let ghost pre = out.deep_view();
        let c = reverse_rule_command(&rev[k]);
        out.push(c);
        proof {
            assert(forall|j: int| 0 <= j < out@.len() - 1 ==> #[trigger] out.deep_view()[j]
                == pre[j]);
            assert(out.deep_view()[fv.len() + k as int] == stub_rule_seq(
                rv[k as int].nameservers[0],
                rv[k as int].zone,
            ));
        }
        k = k + 1;
    }
    let ghost pre = out.deep_view();
    out.push(fallback_rule_command());
    proof {
        assert(forall|j: int| 0 <= j < out@.len() - 1 ==> #[trigger] out.deep_view()[j] == pre[j]);
        assert(out.deep_view()[out@.len() - 1] == fallback_rule_seq());
        assert(out.deep_view() =~= apply_plan_spec(fv, rv));
    }
    out
}

/// A rule line match at position `i`: the listing marker followed by
/// at least one digit.
pub open spec fn rule_match_at(s: Seq<char>, i: int) -> bool {
    0 <= i && i + 8 < s.len() && s.subrange(i, i + 8) == "[id] => "@ && is_digit_char(s[i + 8])
}

/// Leftmost rule line match, or -1 when the line holds none.
pub open spec fn find_rule_id(s: Seq<char>) -> int
    decreases s.len(),
{
    if s.len() == 0 {
        -1
    } else if rule_match_at(s, 0) {
        0
    } else {
        let r = find_rule_id(s.drop_first());
        if r < 0 {
            -1
        } else {
            r + 1
        }
    }
}

proof fn lemma_match_shift(s: Seq<char>, i: int)
    requires
        s.len() > 0,
        0 <= i,
    ensures
        rule_match_at(s.drop_first(), i) == rule_match_at(s, i + 1),
{
    if i + 9 <= s.len() {
        assert(s.drop_first().subrange(i, i + 8) =~= s.subrange(i + 1, i + 9));
    }
}

proof fn lemma_find_rule_id(s: Seq<char>)
    ensures
        find_rule_id(s) < 0 ==> forall|i: int| !rule_match_at(s, i),
        find_rule_id(s) >= 0 ==> rule_match_at(s, find_rule_id(s)) && (forall|i: int|
            0 <= i < find_rule_id(s) ==> !rule_match_at(s, i)),
    decreases s.len(),
{
    if s.len() == 0 {
    } else if rule_match_at(s, 0) {
    } else {
        lemma_find_rule_id(s.drop_first());
        let r = find_rule_id(s);
        if r >= 0 {
            assert(rule_match_at(s.drop_first(), r - 1));
            lemma_match_shift(s, r - 1);
            assert forall|i: int| 0 <= i < r implies !rule_match_at(s, i) by {
                if i > 0 {
                    lemma_match_shift(s, i - 1);
                    assert(!rule_match_at(s.drop_first(), i - 1));
                }
            }
        } else {
            assert forall|i: int| !rule_match_at(s, i) by {
                if i > 0 {
                    lemma_match_shift(s, i - 1);
                    assert(!rule_match_at(s.drop_first(), i - 1));
                }
            }
        }
    }
}

/// End of the run of digits starting at `from`.
pub open spec fn digit_run_end(s: Seq<char>, from: int) -> int
    decreases s.len() - from,
{
    if from < 0 || from >= s.len() {
        from
    } else if is_digit_char(s[from]) {
        digit_run_end(s, from + 1)
    } else {
        from
    }
}

/// The id captured from one listing line: the maximal digit run right
/// after the leftmost rule marker, if the line holds one.
pub open spec fn line_id(line: Seq<char>) -> Option<Seq<char>> {
    let p = find_rule_id(line);
    if p < 0 {
        None
    } else {
        Some(line.subrange(p + 8, digit_run_end(line, p + 8)))
    }
}

/// The rule ids of a listing response, one per line that carries a
/// rule marker, in listed order.
pub open spec fn lines_ids(lines: Seq<Seq<char>>) -> Seq<Seq<char>>
    decreases lines.len(),
{
    if lines.len() == 0 {
        Seq::empty()
    } else {
        let init = lines_ids(lines.drop_last());
        match line_id(lines.last()) {
            Some(id) => init.push(id),
            None => init,
        }
    }
}

/// The rule ids of a listing response.
pub open spec fn rule_ids_seq(resp: Seq<char>) -> Seq<Seq<char>> {
    lines_ids(split_seq(resp, '\n'))
}

proof fn lemma_run_end_bounds(s: Seq<char>, from: int)
    requires
        0 <= from <= s.len(),
    ensures
        from <= digit_run_end(s, from) <= s.len(),
    decreases s.len() - from,
{
    if from < s.len() && is_digit_char(s[from]) {
        lemma_run_end_bounds(s, from + 1);
    }
}

#[verifier::loop_isolation(false)]
fn find_rule_match(line: &str) -> (r: Option<usize>)
    ensures
        match r {
            Some(i) => i as int == find_rule_id(line@) && i + 8 <= usize::MAX,
            None => find_rule_id(line@) < 0,
        },
{
    let n = line.unicode_len();
    if n < 9 {
        proof {
            lemma_find_rule_id(line@);
        }
        return None;
    }
    let mut i: usize = 0;
    while i < n - 8
        invariant
            0 <= i <= n - 8,
            n == line@.len(),
            9 <= n,
            forall|ii: int| 0 <= ii < i ==> !rule_match_at(line@, ii),
        decreases n - i,
    {
        let seg = line.substring_char(i, i + 8);
        if str_eq(seg, "[id] => ") && is_digit(line.get_char(i + 8)) {
            proof {
                lemma_find_rule_id(line@);
                assert(rule_match_at(line@, i as int));
            }
            return Some(i);
        }
        proof {
            assert(!rule_match_at(line@, i as int));
        }
        i = i + 1;
    }
    proof {
        lemma_find_rule_id(line@);
        let f = find_rule_id(line@);
        if f >= 0 {
            assert(rule_match_at(line@, f));
            assert(f < n - 8);
        }
    }
    None
}

#[verifier::loop_isolation(false)]
fn digit_run_to(line: &str, from: usize) -> (r: usize)
    requires
        from <= line@.len(),
    ensures
        r as int == digit_run_end(line@, from as int),
        from <= r <= line@.len(),
{
    let n = line.unicode_len();
    let mut k = from;
    while k < n
        invariant
            from <= k <= n,
            n == line@.len(),
            digit_run_end(line@, from as int) == digit_run_end(line@, k as int),
        decreases n - k,
    {
        if !is_digit(line.get_char(k)) {
            return k;
        }
        k = k + 1;
    }
    k
}

/// Parse the rule ids out of a listing response: for every line
/// holding the rule marker followed by digits, the digit run, in
/// listed order.
#[verifier::loop_isolation(false)]
pub fn parse_rule_ids(response: &str) -> (ids: Vec<String>)
    ensures
        ids.deep_view() == rule_ids_seq(response@),
{
    let lines = split_str(response, '\n');
    let ghost lv = lines.deep_view();
    let mut out: Vec<String> = Vec::new();
    let mut i: usize = 0;
    while i < lines.len()
        invariant
            0 <= i <= lv.len(),
            lv == lines.deep_view(),
            out.deep_view() == lines_ids(lv.take(i as int)),
        decreases lv.len() - i,
    {
        proof {
            assert(lv.take(i as int + 1).drop_last() =~= lv.take(i as int));
            assert(lv.take(i as int + 1).last() == lv[i as int]);
            assert(lv[i as int] == lines@[i as int]@);
        }
        let line = lines[i].as_str();
        let ghost pre = out.deep_view();
        match find_rule_match(line) {
            Some(p) => {
                proof {
                    lemma_find_rule_id(line@);
                    lemma_run_end_bounds(line@, p as int + 8);
                }
                let e = digit_run_to(line, p + 8);
                out.push(line.substring_char(p + 8, e).to_owned());
                proof {
                    assert(out.deep_view() =~= pre.push(line_id(lv[i as int])->0));
                }
            },
            None => {},
        }
        proof {
            assert(out.deep_view() =~= lines_ids(lv.take(i as int + 1)));
        }
        i = i + 1;
    }
    proof {
        assert(lv.take(lv.len() as int) =~= lv);
    }
    out
}

/// Render the deletion commands for the listed rule ids, in reverse
/// listed order: the backend renumbers the remaining rules after each
/// deletion, so deleting from the back keeps the earlier ids valid.
#[verifier::loop_isolation(false)]
pub fn removal_commands(ids: &Vec<String>) -> (cmds: Vec<String>)
    ensures
        cmds@.len() == ids@.len(),
        forall|k: int| 0 <= k < ids@.len() ==> #[trigger] cmds.deep_view()[k] == delete_rule_seq(
            ids.deep_view()[ids@.len() - 1 - k],
        ),
{
    let n = ids.len();
    let mut out: Vec<String> = Vec::new();
    let mut k: usize = 0;
    while k < n
        invariant
            0 <= k <= n,
            n == ids@.len(),
            out@.len() == k,
            forall|j: int| 0 <= j < k ==> #[trigger] out.deep_view()[j] == delete_rule_seq(
                ids.deep_view()[n - 1 - j],
            ),
        decreases n - k,
    {
        let ghost pre = out.deep_view();
        let c = delete_rule_command(ids[n - 1 - k].as_str());
        out.push(c);
        proof {
            assert(forall|j: int| 0 <= j < k ==> #[trigger] out.deep_view()[j] == pre[j]);
        }
        k = k + 1;
    }
    out
}

/// A line is a response terminator: the blank line or the bare prompt.
pub open spec fn terminator_line(line: Seq<char>) -> bool {
    line == "\n"@ || line == "> \n"@
}

/// Accumulator for one control-channel response: lines are appended
/// until a terminator line arrives.
pub struct ResponseAccumulator {
    pub text: String,
    pub done: bool,
}

impl ResponseAccumulator {
    /// An empty, unfinished response.
    pub fn new() -> (r: ResponseAccumulator)
        ensures
            r.text@ == Seq::<char>::empty(),
            !r.done,
    {
        ResponseAccumulator { text: String::new(), done: false }
    }

    /// Append one line; the response is complete once the line is a
    /// terminator.
    pub fn push_line(&mut self, line: &str)
        requires
            !old(self).done,
        ensures
            final(self).text@ == old(self).text@ + line@,
            final(self).done == terminator_line(line@),
    {
        self.text.append(line);
        self.done = str_eq(line, "\n") || str_eq(line, "> \n");
    }
}

} // verus!
