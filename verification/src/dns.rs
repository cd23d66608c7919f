//! The DNS responder's packet logic: reading the question of a query,
//! deciding whether the name lies in the gateway's zone, and building the
//! reply. Sockets, forwarding and timeouts belong to the binary.
use vstd::prelude::*;
use vstd::slice::slice_subrange;
use vstd::string::*;
use vstd::utf8::*;
use crate::text::{
    ascii_lowercase, chars_eq, chars_of, decode_utf8_str, lemma_split_nonempty, lemma_split_prefix,
    lower_seq, split_char, split_ranges, trim_bounds, trim_end_ws, trim_start_ws, trim_ws,
};

verus! {

/// Length of the fixed DNS header.
pub const HEADER_LEN: usize = 12;
/// Largest datagram the responder reads or forwards.
pub const MAX_PACKET: usize = 512;
pub const TYPE_A: u16 = 1;
pub const TYPE_AAAA: u16 = 28;
pub const CLASS_IN: u16 = 1;
/// Time to live, in seconds, of every address record the responder hands out.
pub const TTL: u32 = 60;

pub const FLAG_QR: u16 = 0x8000;
pub const FLAG_AA: u16 = 0x0400;
pub const FLAG_RD: u16 = 0x0100;
pub const FLAG_RA: u16 = 0x0080;
pub const RCODE_REFUSED: u16 = 5;

/// Flags of an authoritative answer: QR, AA, RD and RA set, response code 0.
pub const ANSWER_FLAGS: u16 = 0x8580;
/// Flags of a refusal: QR, RD and RA set, response code 5 (REFUSED).
pub const REFUSED_FLAGS: u16 = 0x8185;

// ---------------------------------------------------------------------------
// Wire format
// ---------------------------------------------------------------------------

/// Big-endian 16-bit value at `p[i..i + 2]`.
pub open spec fn be16(p: Seq<u8>, i: int) -> int {
    p[i] as int * 256 + p[i + 1] as int
}

/// Big-endian bytes of a 16-bit value.
pub open spec fn u16_bytes(v: u16) -> Seq<u8> {
    seq![(v / 256) as u8, (v % 256) as u8]
}

/// Big-endian bytes of a 32-bit value.
pub open spec fn u32_bytes(v: u32) -> Seq<u8> {
    seq![(v / 0x1000000) as u8, ((v / 0x10000) % 256) as u8, ((v / 256) % 256) as u8, (v % 256) as u8]
}

/// The labels of the (uncompressed) domain name that starts at `off`, and the
/// offset just past its terminating zero byte. A name fails to read when it
/// runs off the packet or has a length byte of 64 or more (which also
/// excludes compression pointers).
pub open spec fn qname_labels(p: Seq<u8>, off: int) -> Option<(Seq<Seq<u8>>, int)>
    decreases p.len() - off,
{
    if off < 0 || off >= p.len() {
        None
    } else {
        let len = p[off] as int;
        if len == 0 {
            Some((seq![], off + 1))
        } else if len >= 64 || off + 1 + len > p.len() {
            None
        } else {
            match qname_labels(p, off + 1 + len) {
                Some((ls, end)) => Some((seq![p.subrange(off + 1, off + 1 + len)] + ls, end)),
                None => None,
            }
        }
    }
}

/// Labels joined with dots.
pub open spec fn join_labels(ls: Seq<Seq<char>>) -> Seq<char>
    decreases ls.len(),
{
    if ls.len() == 0 {
        seq![]
    } else if ls.len() == 1 {
        ls[0]
    } else {
        join_labels(ls.drop_last()) + seq!['.'] + ls.last()
    }
}

pub open spec fn decoded_labels(ls: Seq<Seq<u8>>) -> Seq<Seq<char>> {
    ls.map_values(|l: Seq<u8>| decode_utf8(l))
}

pub open spec fn all_valid_utf8(ls: Seq<Seq<u8>>) -> bool {
    forall|i: int| 0 <= i < ls.len() ==> valid_utf8(#[trigger] ls[i])
}

/// The dotted name at `off` and the offset past it; every label must be UTF-8.
pub open spec fn spec_parse_qname(p: Seq<u8>, off: int) -> Option<(Seq<char>, int)> {
    match qname_labels(p, off) {
        Some((ls, end)) => if all_valid_utf8(ls) {
            Some((join_labels(decoded_labels(ls)), end))
        } else {
            None
        },
        None => None,
    }
}

pub open spec fn prepend_labels(done: Seq<Seq<u8>>, o: Option<(Seq<Seq<u8>>, int)>) -> Option<(Seq<Seq<u8>>, int)> {
    match o {
        Some((ls, end)) => Some((done + ls, end)),
        None => None,
    }
}

/// Reads the domain name that starts at `offset`: its labels joined by dots,
/// and the offset just past the name.
pub fn parse_qname(packet: &[u8], offset: usize) -> (r: Option<(String, usize)>)
    ensures
        match spec_parse_qname(packet@, offset as int) {
            None => r is None,
            Some((name, end)) => r matches Some((s, e)) && s@ == name && e == end,
        },
{
    let mut off = offset;
    let mut name = String::new();
    let mut count: usize = 0;
    let ghost mut done: Seq<Seq<u8>> = seq![];
    proof {
        reveal_strlit(".");
        assert(prepend_labels(done, qname_labels(packet@, off as int)) =~= qname_labels(packet@, offset as int)) by {
            match qname_labels(packet@, off as int) {
                Some((ls, e)) => { assert(done + ls =~= ls); },
                None => {},
            }
        }
    }
    loop
        invariant
            qname_labels(packet@, offset as int) == prepend_labels(done, qname_labels(packet@, off as int)),
            all_valid_utf8(done),
            name@ == join_labels(decoded_labels(done)),
            count == done.len(),
            count <= off,
            "."@ == seq!['.'],
        decreases packet@.len() - off,
    {
        if off >= packet.len() {
            return None;
        }
        let len = packet[off] as usize;
        if len == 0 {
            proof {
                assert(done + Seq::<Seq<u8>>::empty() =~= done);
            }
            return Some((name, off + 1));
        }
        if len >= 64 {
            return None;
        }
        let start = off + 1;
        if len > packet.len() - start {
            return None;
        }
        let ghost label = packet@.subrange(start as int, start + len);
        let ghost next = start + len;
        proof {
            match qname_labels(packet@, next) {
                Some((ls, e)) => {
                    assert(done + (seq![label] + ls) =~= done.push(label) + ls);
                },
                None => {},
            }
        }
        let bytes = slice_subrange(packet, start, start + len);
        match decode_utf8_str(bytes) {
            None => {
                proof {
                    match qname_labels(packet@, offset as int) {
                        Some((ls, e)) => {
                            assert(ls[done.len() as int] == label);
                        },
                        None => {},
                    }
                }
                return None;
            },
            Some(text) => {
                let ghost old_done = done;
                proof {
                    done = done.push(label);
                    assert(decoded_labels(done) =~= decoded_labels(old_done).push(decode_utf8(label)));
                    assert(decoded_labels(done).drop_last() =~= decoded_labels(old_done));
                }
                if count > 0 {
                    name.append(".");
                }
                name.append(text);
                count = count + 1;
                proof {
                    if old_done.len() == 0 {
                        assert(name@ =~= join_labels(decoded_labels(done)));
                    }
                }
                off = start + len;
            },
        }
    }
}

// ---------------------------------------------------------------------------
// The gateway's zone
// ---------------------------------------------------------------------------

pub open spec fn ends_with(s: Seq<char>, suffix: Seq<char>) -> bool {
    suffix.len() <= s.len() && s.subrange(s.len() - suffix.len(), s.len() as int) == suffix
}

/// Whether `qname` is the base domain or a name below it; the base domain is
/// compared lower-cased, `qname` as given.
pub open spec fn in_zone(qname: Seq<char>, base_domain: Seq<char>) -> bool {
    let base = lower_seq(base_domain);
    qname == base || ends_with(qname, seq!['.'] + base)
}

/// Whether `qname` is the base domain or a subdomain of it.
pub fn matches_base_domain(qname: &str, base_domain: &str) -> (r: bool)
    ensures
        r == in_zone(qname@, base_domain@),
{
    let base = ascii_lowercase(base_domain);
    let q = chars_of(qname);
    let b = chars_of(base.as_str());
    if chars_eq(q.as_slice(), b.as_slice()) {
        return true;
    }
    let n = q.len();
    let m = b.len();
    if m >= n {
        return false;
    }
    let k = n - m - 1;
    let ghost suffix = seq!['.'] + b@;
    if q[k] != '.' {
        proof {
            assert(q@.subrange(k as int, n as int)[0] != suffix[0]);
        }
        return false;
    }
    let mut j: usize = 0;
    while j < m
        invariant
            n == q@.len(),
            m == b@.len(),
            m < n,
            k == n - m - 1,
            j <= m,
            forall|i: int| 0 <= i < j ==> q@[k + 1 + i] == b@[i],
            suffix == seq!['.'] + b@,
            b@ == lower_seq(base_domain@),
            q@ == qname@,
            q@[k as int] == '.',
            !(q@ == b@),
        decreases m - j,
    {
        if q[k + 1 + j] != b[j] {
            proof {
                assert(suffix[j + 1] == b@[j as int]);
                assert(q@.subrange(k as int, n as int)[j + 1] == q@[k + 1 + j]);
                assert(q@.subrange(k as int, n as int)[j + 1] != suffix[j + 1]);
            }
            return false;
        }
        j = j + 1;
    }
    proof {
        assert(q@.subrange(k as int, n as int) =~= suffix);
    }
    true
}

// ---------------------------------------------------------------------------
// Replies
// ---------------------------------------------------------------------------

/// An answer carrying one A record for the question, pointing back at the
/// question's name (offset 12) and giving `ip`.
pub open spec fn a_response_bytes(q: Seq<u8>, question_end: int, ip: Seq<u8>) -> Seq<u8> {
    q.subrange(0, 2) + u16_bytes(ANSWER_FLAGS) + u16_bytes(1) + u16_bytes(1) + u16_bytes(0)
        + u16_bytes(0) + q.subrange(HEADER_LEN as int, question_end) + seq![0xC0u8, 0x0Cu8]
        + u16_bytes(TYPE_A) + u16_bytes(CLASS_IN) + u32_bytes(TTL) + u16_bytes(4) + ip
}

/// An authoritative answer with no records.
pub open spec fn empty_response_bytes(q: Seq<u8>, question_end: int) -> Seq<u8> {
    q.subrange(0, 2) + u16_bytes(ANSWER_FLAGS) + u16_bytes(1) + u16_bytes(0) + u16_bytes(0)
        + u16_bytes(0) + q.subrange(HEADER_LEN as int, question_end)
}

/// A refusal: the query's id and counts, with response code REFUSED.
pub open spec fn refused_bytes(q: Seq<u8>) -> Seq<u8> {
    q.subrange(0, 2) + u16_bytes(REFUSED_FLAGS) + q.subrange(4, HEADER_LEN as int)
}

fn push_u16(out: &mut Vec<u8>, v: u16)
    ensures
        final(out)@ == old(out)@ + u16_bytes(v),
{
    out.push((v / 256) as u8);
    out.push((v % 256) as u8);
    assert(final(out)@ =~= old(out)@ + u16_bytes(v));
}

fn push_u32(out: &mut Vec<u8>, v: u32)
    ensures
        final(out)@ == old(out)@ + u32_bytes(v),
{
    out.push((v / 0x1000000) as u8);
    out.push(((v / 0x10000) % 256) as u8);
    out.push(((v / 256) % 256) as u8);
    out.push((v % 256) as u8);
    assert(final(out)@ =~= old(out)@ + u32_bytes(v));
}

fn push_range(out: &mut Vec<u8>, src: &[u8], from: usize, to: usize)
    requires
        from <= to <= src@.len(),
    ensures
        final(out)@ == old(out)@ + src@.subrange(from as int, to as int),
{
    let ghost start = out@;
    let mut i = from;
    while i < to
        invariant
            from <= i <= to <= src@.len(),
            out@ == start + src@.subrange(from as int, i as int),
        decreases to - i,
    {
        out.push(src[i]);
        assert(start + src@.subrange(from as int, i + 1) =~= (start + src@.subrange(from as int, i as int)).push(src@[i as int]));
        i = i + 1;
    }
}

/// The answer to an A question: the question section `query[12..question_end]`
/// followed by one address record for `ip`.
pub fn build_a_response(query: &[u8], question_end: usize, ip: [u8; 4]) -> (r: Vec<u8>)
    requires
        HEADER_LEN <= question_end <= query@.len(),
    ensures
        r@ == a_response_bytes(query@, question_end as int, ip@),
{
    let mut resp: Vec<u8> = Vec::new();
    push_range(&mut resp, query, 0, 2);
    push_u16(&mut resp, ANSWER_FLAGS);
    push_u16(&mut resp, 1);
    push_u16(&mut resp, 1);
    push_u16(&mut resp, 0);
    push_u16(&mut resp, 0);
    push_range(&mut resp, query, HEADER_LEN, question_end);
    resp.push(0xC0);
    resp.push(0x0C);
    let ghost mid = resp@;
    push_u16(&mut resp, TYPE_A);
    push_u16(&mut resp, CLASS_IN);
    push_u32(&mut resp, TTL);
    push_u16(&mut resp, 4);
    push_range(&mut resp, &ip, 0, 4);
    proof {
        assert(ip@.subrange(0, 4) =~= ip@);
        assert(resp@ =~= a_response_bytes(query@, question_end as int, ip@));
    }
    resp
}

/// An answer with no records, echoing the question section `query[12..question_end]`.
pub fn build_empty_response(query: &[u8], question_end: usize) -> (r: Vec<u8>)
    requires
        HEADER_LEN <= question_end <= query@.len(),
    ensures
        r@ == empty_response_bytes(query@, question_end as int),
{
    let mut resp: Vec<u8> = Vec::with_capacity(HEADER_LEN + (question_end - HEADER_LEN));
    push_range(&mut resp, query, 0, 2);
    push_u16(&mut resp, ANSWER_FLAGS);
    push_u16(&mut resp, 1);
    push_u16(&mut resp, 0);
    push_u16(&mut resp, 0);
    push_u16(&mut resp, 0);
    push_range(&mut resp, query, HEADER_LEN, question_end);
    proof {
        assert(resp@ =~= empty_response_bytes(query@, question_end as int));
    }
    resp
}

/// A refusal of the query: its header with the response bit set and REFUSED.
pub fn build_refused(query: &[u8]) -> (r: Vec<u8>)
    requires
        HEADER_LEN <= query@.len(),
    ensures
        r@ == refused_bytes(query@),
{
    let mut resp: Vec<u8> = Vec::with_capacity(HEADER_LEN);
    push_range(&mut resp, query, 0, 2);
    push_u16(&mut resp, REFUSED_FLAGS);
    push_range(&mut resp, query, 4, HEADER_LEN);
    proof {
        assert(resp@ =~= refused_bytes(query@));
    }
    resp
}

// ---------------------------------------------------------------------------
// Handling a query
// ---------------------------------------------------------------------------

/// What the responder owes a datagram.
pub enum QueryOutcome {
    /// Not a well-formed single-question query: no reply.
    Ignore,
    /// A question of a class other than IN: refuse it.
    Refused,
    /// A name outside the zone: pass the query to the upstream server.
    Forward,
    /// An A question in the zone: answer with the zone's address. The field
    /// is the offset just past the question (name, type and class).
    Address(usize),
    /// Any other type in the zone: answer with no records. The field is the
    /// offset just past the question.
    NoRecords(usize),
}

/// What the responder does with a datagram.
pub enum DnsAction {
    /// Send nothing.
    Ignore,
    /// Send these bytes back to the sender.
    Reply(Vec<u8>),
    /// Send the query to the upstream server and relay its answer.
    Forward,
}

/// The zone that the responder answers for.
pub struct DnsZone {
    /// The address handed out for every name in the zone.
    pub resolve_ip: [u8; 4],
    /// The zone's base domain.
    pub base_domain: String,
}

/// How a datagram `q` is handled by a responder whose base domain is `base`.
pub open spec fn classify(q: Seq<u8>, base: Seq<char>) -> QueryOutcome {
    if q.len() < HEADER_LEN {
        QueryOutcome::Ignore
    } else if q[2] >= 0x80 {
        // the QR bit: this is a response, not a query
        QueryOutcome::Ignore
    } else if be16(q, 4) != 1 {
        QueryOutcome::Ignore
    } else {
        match spec_parse_qname(q, HEADER_LEN as int) {
            None => QueryOutcome::Ignore,
            Some((name, end)) => if end + 4 > q.len() {
                QueryOutcome::Ignore
            } else if be16(q, end + 2) != CLASS_IN {
                QueryOutcome::Refused
            } else if !in_zone(lower_seq(name), base) {
                QueryOutcome::Forward
            } else if be16(q, end) == TYPE_A {
                QueryOutcome::Address((end + 4) as usize)
            } else {
                QueryOutcome::NoRecords((end + 4) as usize)
            },
        }
    }
}

/// The bytes of the reply that outcome `o` calls for (empty when none does).
pub open spec fn reply_for(q: Seq<u8>, ip: Seq<u8>, o: QueryOutcome) -> Seq<u8> {
    match o {
        QueryOutcome::Refused => refused_bytes(q),
        QueryOutcome::Address(end) => a_response_bytes(q, end as int, ip),
        QueryOutcome::NoRecords(end) => empty_response_bytes(q, end as int),
        _ => seq![],
    }
}

/// Decides what to do with one datagram received by the responder.
pub fn handle_query(query: &[u8], zone: &DnsZone) -> (r: DnsAction)
    ensures
        match classify(query@, zone.base_domain@) {
            QueryOutcome::Ignore => r is Ignore,
            QueryOutcome::Forward => r is Forward,
            o => r matches DnsAction::Reply(v) && v@ == reply_for(query@, zone.resolve_ip@, o),
        },
{
    if query.len() < HEADER_LEN {
        return DnsAction::Ignore;
    }
    let flags: u16 = (query[2] as u16) * 256 + query[3] as u16;
    proof {
        let b2 = query@[2];
        let b3 = query@[3];
        assert(flags == ((b2 as u16) * 256 + (b3 as u16)) as u16);
        assert((((b2 as u16) * 256 + (b3 as u16)) as u16) & 0x8000u16 != 0 <==> b2 >= 0x80) by (bit_vector);
    }
    if flags & FLAG_QR != 0 {
        return DnsAction::Ignore;
    }
    let qdcount: u16 = (query[4] as u16) * 256 + query[5] as u16;
    if qdcount != 1 {
        return DnsAction::Ignore;
    }
    let (qname, qname_end) = match parse_qname(query, HEADER_LEN) {
        Some(v) => v,
        None => return DnsAction::Ignore,
    };
    if qname_end > query.len() || query.len() - qname_end < 4 {
        return DnsAction::Ignore;
    }
    let qtype: u16 = (query[qname_end] as u16) * 256 + query[qname_end + 1] as u16;
    let qclass: u16 = (query[qname_end + 2] as u16) * 256 + query[qname_end + 3] as u16;
    if qclass != CLASS_IN {
        return DnsAction::Reply(build_refused(query));
    }
    let qname_lower = ascii_lowercase(qname.as_str());
    if !matches_base_domain(qname_lower.as_str(), zone.base_domain.as_str()) {
        return DnsAction::Forward;
    }
    proof {
        qname_labels_end_bound(query@, HEADER_LEN as int);
    }
    if qtype == TYPE_A {
        DnsAction::Reply(build_a_response(query, qname_end + 4, zone.resolve_ip))
    } else {
        DnsAction::Reply(build_empty_response(query, qname_end + 4))
    }
}

/// A name that reads ends past its start and inside the packet.
pub proof fn qname_labels_end_bound(p: Seq<u8>, off: int)
    ensures
        qname_labels(p, off) matches Some((ls, end)) ==> off < end <= p.len(),
    decreases p.len() - off,
{
    if 0 <= off < p.len() {
        let len = p[off] as int;
        if len != 0 && len < 64 && off + 1 + len <= p.len() {
            qname_labels_end_bound(p, off + 1 + len);
        }
    }
}

// ---------------------------------------------------------------------------
// Laws
// ---------------------------------------------------------------------------

/// The wire encoding of a name: each label prefixed by its length, then a zero byte.
pub open spec fn encode_name(ls: Seq<Seq<u8>>) -> Seq<u8>
    decreases ls.len(),
{
    if ls.len() == 0 {
        seq![0u8]
    } else {
        seq![ls[0].len() as u8] + ls[0] + encode_name(ls.drop_first())
    }
}

/// Labels that a name can carry: each of 1 to 63 bytes.
pub open spec fn labels_encodable(ls: Seq<Seq<u8>>) -> bool {
    forall|i: int| 0 <= i < ls.len() ==> 1 <= #[trigger] ls[i].len() <= 63
}

/// The header of a standard recursive query: id, RD set, one question, no
/// other records.
pub open spec fn query_header(id: u16) -> Seq<u8> {
    u16_bytes(id) + u16_bytes(FLAG_RD) + u16_bytes(1) + u16_bytes(0) + u16_bytes(0) + u16_bytes(0)
}

/// What follows the name in a question: its type, then class IN.
pub open spec fn question_tail(qtype: u16) -> Seq<u8> {
    u16_bytes(qtype) + u16_bytes(CLASS_IN)
}

/// A standard recursive query: the header, then one question for the
/// encoded name with the given type, class IN.
pub open spec fn query_bytes(id: u16, ls: Seq<Seq<u8>>, qtype: u16) -> Seq<u8> {
    query_header(id) + encode_name(ls) + question_tail(qtype)
}

/// Reading an encoded name gives back its labels and the offset just past it,
/// whatever precedes or follows it in the packet.
pub proof fn lemma_name_roundtrip(pre: Seq<u8>, ls: Seq<Seq<u8>>, post: Seq<u8>)
    requires
        labels_encodable(ls),
    ensures
        qname_labels(pre + encode_name(ls) + post, pre.len() as int)
            == Some((ls, (pre.len() + encode_name(ls).len()) as int)),
    decreases ls.len(),
{
    let p = pre + encode_name(ls) + post;
    let off = pre.len() as int;
    if ls.len() == 0 {
        assert(p[off] == 0);
        assert(ls =~= Seq::<Seq<u8>>::empty());
    } else {
        let l0 = ls[0];
        let rest = ls.drop_first();
        assert(labels_encodable(rest)) by {
            assert forall|i: int| 0 <= i < rest.len() implies 1 <= #[trigger] rest[i].len() <= 63 by {
                assert(rest[i] == ls[i + 1]);
            }
        }
        let pre2 = pre + seq![l0.len() as u8] + l0;
        lemma_name_roundtrip(pre2, rest, post);
        assert(p =~= pre2 + encode_name(rest) + post);
        assert(p[off] == l0.len() as u8);
        assert(p.subrange(off + 1, off + 1 + l0.len()) =~= l0);
        assert(seq![l0] + rest =~= ls);
    }
}

/// A name is in the zone exactly when it is in the zone of the lower-cased base
/// domain: the base domain's case never matters.
pub proof fn lemma_zone_case_insensitive(qname: Seq<char>, base: Seq<char>)
    ensures
        in_zone(qname, base) == in_zone(qname, lower_seq(base)),
{
    assert(lower_seq(lower_seq(base)) =~= lower_seq(base)) by {
        assert forall|i: int| 0 <= i < base.len() implies #[trigger] lower_seq(lower_seq(base))[i] == lower_seq(base)[i] by {
            let c = base[i];
            if 'A' <= c && c <= 'Z' {
                assert(((c as u32) + 32) as char as u32 == (c as u32) + 32);
            }
        }
    }
}

/// The base domain itself is in the zone.
pub proof fn lemma_zone_contains_base(base: Seq<char>)
    ensures
        in_zone(lower_seq(base), base),
{
}

/// Every name below the base domain is in the zone, however many labels it has.
pub proof fn lemma_zone_contains_subdomains(prefix: Seq<char>, base: Seq<char>)
    ensures
        in_zone(prefix + seq!['.'] + lower_seq(base), base),
{
    let q = prefix + seq!['.'] + lower_seq(base);
    let suffix = seq!['.'] + lower_seq(base);
    assert(q.subrange(q.len() - suffix.len(), q.len() as int) =~= suffix);
}

/// A name that merely ends with the base domain's letters, without a label
/// boundary before them, is not in the zone.
pub proof fn lemma_zone_needs_label_boundary(qname: Seq<char>, base: Seq<char>)
    requires
        qname != lower_seq(base),
        qname.len() > base.len(),
        qname[qname.len() - base.len() - 1] != '.',
    ensures
        !in_zone(qname, base),
{
    let suffix = seq!['.'] + lower_seq(base);
    if ends_with(qname, suffix) {
        assert(qname.subrange(qname.len() - suffix.len(), qname.len() as int)[0] == suffix[0]);
    }
}

/// The responder never answers a datagram that is too short for a header or
/// that is itself a response (QR set); this keeps two responders from
/// answering each other forever.
pub proof fn lemma_ignores_responses_and_runts(q: Seq<u8>, base: Seq<char>)
    requires
        q.len() < HEADER_LEN || q[2] >= 0x80,
    ensures
        classify(q, base) == QueryOutcome::Ignore,
{
}

/// Every reply carries the query's id and has the QR bit set.
pub proof fn lemma_replies_echo_id(q: Seq<u8>, base: Seq<char>, ip: Seq<u8>)
    requires
        !(classify(q, base) is Ignore),
        !(classify(q, base) is Forward),
    ensures
        reply_for(q, ip, classify(q, base)).len() >= 4,
        reply_for(q, ip, classify(q, base)).subrange(0, 2) == q.subrange(0, 2),
        reply_for(q, ip, classify(q, base))[2] >= 0x80,
{
    let r = reply_for(q, ip, classify(q, base));
    assert(r.subrange(0, 2) =~= q.subrange(0, 2));
}

/// A refusal has response code 5 (REFUSED).
pub proof fn lemma_refusal_code(q: Seq<u8>, base: Seq<char>, ip: Seq<u8>)
    requires
        classify(q, base) is Refused,
    ensures
        reply_for(q, ip, classify(q, base))[3] % 16 == RCODE_REFUSED,
{
}

/// An answer to an A question in the zone has one answer record, response
/// code 0, and ends with the zone's address.
pub proof fn lemma_address_answer(q: Seq<u8>, base: Seq<char>, ip: Seq<u8>)
    requires
        classify(q, base) is Address,
        ip.len() == 4,
    ensures
        ({
            let r = reply_for(q, ip, classify(q, base));
            &&& be16(r, 6) == 1
            &&& r[3] % 16 == 0
            &&& r.subrange(r.len() - 4, r.len() as int) == ip
        }),
{
    let r = reply_for(q, ip, classify(q, base));
    assert(r.subrange(r.len() - 4, r.len() as int) =~= ip);
}

/// An answer to any other question in the zone has no answer records and
/// response code 0.
pub proof fn lemma_no_records_answer(q: Seq<u8>, base: Seq<char>, ip: Seq<u8>)
    requires
        classify(q, base) is NoRecords,
    ensures
        ({
            let r = reply_for(q, ip, classify(q, base));
            &&& be16(r, 6) == 0
            &&& r[3] % 16 == 0
        }),
{
}

proof fn lemma_u16_bytes(v: u16)
    ensures
        u16_bytes(v).len() == 2,
        be16(u16_bytes(v), 0) == v,
{
}

/// The header of a standard query: twelve bytes, QR clear, one question.
pub proof fn lemma_query_header(id: u16)
    ensures
        query_header(id).len() == HEADER_LEN,
        query_header(id)[2] < 0x80,
        be16(query_header(id), 4) == 1,
{
    let h = query_header(id);
    assert(h[2] == u16_bytes(FLAG_RD)[0]);
    assert(h[4] == u16_bytes(1)[0] && h[5] == u16_bytes(1)[1]);
}

/// The tail of a question: four bytes, the type and then class IN.
pub proof fn lemma_question_tail(qtype: u16)
    ensures
        question_tail(qtype).len() == 4,
        be16(question_tail(qtype), 0) == qtype,
        be16(question_tail(qtype), 2) == CLASS_IN,
{
    lemma_u16_bytes(qtype);
    lemma_u16_bytes(CLASS_IN);
    let t = question_tail(qtype);
    assert(t[0] == u16_bytes(qtype)[0] && t[1] == u16_bytes(qtype)[1]);
    assert(t[2] == u16_bytes(CLASS_IN)[0] && t[3] == u16_bytes(CLASS_IN)[1]);
}

/// The layout of a standard query: its header fields, and where the name
/// and the type and class that follow it lie.
pub proof fn lemma_query_layout(id: u16, ls: Seq<Seq<u8>>, qtype: u16)
    ensures
        ({
            let q = query_bytes(id, ls, qtype);
            let end = HEADER_LEN + encode_name(ls).len();
            &&& q.len() == end + 4
            &&& q[2] < 0x80
            &&& be16(q, 4) == 1
            &&& be16(q, end) == qtype
            &&& be16(q, end + 2) == CLASS_IN
        }),
{
    lemma_query_header(id);
    lemma_question_tail(qtype);
    let h = query_header(id);
    let n = encode_name(ls);
    let t = question_tail(qtype);
    let q = query_bytes(id, ls, qtype);
    let end = HEADER_LEN + n.len();
    assert(q[2] == h[2]);
    assert(q[4] == h[4] && q[5] == h[5]);
    assert(q[end] == t[0] && q[end + 1] == t[1]);
    assert(q[end + 2] == t[2] && q[end + 3] == t[3]);
}

/// How a standard query is handled: names in the zone are answered (with the
/// zone's address for type A, with no records otherwise), the answer echoing
/// the whole question, and every other name is forwarded upstream.
pub proof fn lemma_query_resolution(id: u16, ls: Seq<Seq<u8>>, qtype: u16, base: Seq<char>)
    requires
        labels_encodable(ls),
        all_valid_utf8(ls),
    ensures
        ({
            let q = query_bytes(id, ls, qtype);
            let question_end = (HEADER_LEN + encode_name(ls).len() + 4) as usize;
            let name = join_labels(decoded_labels(ls));
            classify(q, base) == if !in_zone(lower_seq(name), base) {
                QueryOutcome::Forward
            } else if qtype == TYPE_A {
                QueryOutcome::Address(question_end)
            } else {
                QueryOutcome::NoRecords(question_end)
            }
        }),
{
    lemma_query_header(id);
    lemma_query_layout(id, ls, qtype);
    lemma_name_roundtrip(query_header(id), ls, question_tail(qtype));
}

/// Bytes after the question (an additional section such as an EDNS0 OPT
/// record) never change how a query is handled: whatever a query is owed, it
/// is owed the same with any bytes appended.
pub proof fn lemma_trailing_bytes(q: Seq<u8>, extra: Seq<u8>, base: Seq<char>)
    requires
        !(classify(q, base) is Ignore),
    ensures
        classify(q + extra, base) == classify(q, base),
{
    let q2 = q + extra;
    assert(q2[2] == q[2] && q2[4] == q[4] && q2[5] == q[5]);
    let end = spec_parse_qname(q, HEADER_LEN as int)->Some_0.1;
    qname_labels_end_bound(q, HEADER_LEN as int);
    assert(q2.subrange(HEADER_LEN as int, end) =~= q.subrange(HEADER_LEN as int, end));
    lemma_qname_local(q, q2, HEADER_LEN as int);
    assert(q2[end] == q[end] && q2[end + 1] == q[end + 1]);
    assert(q2[end + 2] == q[end + 2] && q2[end + 3] == q[end + 3]);
}

/// A standard query followed by any further bytes is handled by its
/// question: names in the zone are answered (the address for type A, no
/// records otherwise) and every other name is forwarded upstream.
pub proof fn lemma_query_with_trailer_resolution(
    id: u16,
    ls: Seq<Seq<u8>>,
    qtype: u16,
    extra: Seq<u8>,
    base: Seq<char>,
)
    requires
        labels_encodable(ls),
        all_valid_utf8(ls),
    ensures
        ({
            let q = query_bytes(id, ls, qtype) + extra;
            let question_end = (HEADER_LEN + encode_name(ls).len() + 4) as usize;
            let name = join_labels(decoded_labels(ls));
            classify(q, base) == if !in_zone(lower_seq(name), base) {
                QueryOutcome::Forward
            } else if qtype == TYPE_A {
                QueryOutcome::Address(question_end)
            } else {
                QueryOutcome::NoRecords(question_end)
            }
        }),
{
    lemma_query_resolution(id, ls, qtype, base);
    lemma_trailing_bytes(query_bytes(id, ls, qtype), extra, base);
}

/// An answer echoes the whole question, type and class included: its
/// question section is `q[12..question_end]`, and `question_end` lies four
/// bytes past the question's name.
pub proof fn lemma_answer_echoes_question(q: Seq<u8>, base: Seq<char>, ip: Seq<u8>)
    requires
        q.len() <= usize::MAX,
        classify(q, base) is Address || classify(q, base) is NoRecords,
    ensures
        ({
            let question_end = match classify(q, base) {
                QueryOutcome::Address(e) => e as int,
                QueryOutcome::NoRecords(e) => e as int,
                _ => 0,
            };
            let r = reply_for(q, ip, classify(q, base));
            &&& spec_parse_qname(q, HEADER_LEN as int) matches Some((name, end)) && question_end == end + 4
            &&& HEADER_LEN < question_end <= q.len()
            &&& r.subrange(HEADER_LEN as int, question_end) == q.subrange(HEADER_LEN as int, question_end)
        }),
{
    qname_labels_end_bound(q, HEADER_LEN as int);
    let r = reply_for(q, ip, classify(q, base));
    let e = match classify(q, base) {
        QueryOutcome::Address(e) => e as int,
        QueryOutcome::NoRecords(e) => e as int,
        _ => 0,
    };
    let end = spec_parse_qname(q, HEADER_LEN as int)->Some_0.1;
    assert(e == end + 4);
    assert(r.subrange(HEADER_LEN as int, e) =~= q.subrange(HEADER_LEN as int, e));
}

// ---------------------------------------------------------------------------
// The shape of a name on the wire
// ---------------------------------------------------------------------------

/// The bytes of a name that reads are exactly its encoding, ending in a zero byte.
pub proof fn lemma_qname_bytes(p: Seq<u8>, off: int)
    ensures
        qname_labels(p, off) matches Some((ls, end)) ==> {
            &&& off < end <= p.len()
            &&& p.subrange(off, end) == encode_name(ls)
            &&& p[end - 1] == 0
            &&& labels_encodable(ls)
        },
    decreases p.len() - off,
{
    if 0 <= off < p.len() {
        let len = p[off] as int;
        if len == 0 {
            assert(p.subrange(off, off + 1) =~= seq![0u8]);
        } else if len < 64 && off + 1 + len <= p.len() {
            let next = off + 1 + len;
            lemma_qname_bytes(p, next);
            if let Some((ls2, end)) = qname_labels(p, next) {
                let l0 = p.subrange(off + 1, next);
                let ls = seq![l0] + ls2;
                assert(ls[0] == l0);
                assert(ls.drop_first() =~= ls2);
                assert(p.subrange(off, end) =~= seq![l0.len() as u8] + l0 + p.subrange(next, end));
                assert forall|i: int| 0 <= i < ls.len() implies 1 <= #[trigger] ls[i].len() <= 63 by {
                    if i > 0 {
                        assert(ls[i] == ls2[i - 1]);
                    }
                }
            }
        }
    }
}

/// Reading a name looks only at the name's own bytes: any packet that holds
/// the same bytes at the same place reads the same name.
pub proof fn lemma_qname_local(p: Seq<u8>, q: Seq<u8>, off: int)
    requires
        qname_labels(p, off) matches Some((ls, end)) && end <= q.len() && q.subrange(off, end) == p.subrange(off, end),
    ensures
        qname_labels(q, off) == qname_labels(p, off),
        spec_parse_qname(q, off) == spec_parse_qname(p, off),
    decreases p.len() - off,
{
    let end = qname_labels(p, off)->Some_0.1;
    qname_labels_end_bound(p, off);
    assert(q[off] == q.subrange(off, end)[0]);
    assert(p[off] == p.subrange(off, end)[0]);
    let len = p[off] as int;
    if len != 0 {
        let next = off + 1 + len;
        qname_labels_end_bound(p, next);
        assert(q.subrange(next, end) =~= q.subrange(off, end).subrange(next - off, end - off));
        assert(p.subrange(next, end) =~= p.subrange(off, end).subrange(next - off, end - off));
        lemma_qname_local(p, q, next);
        assert(q.subrange(off + 1, next) =~= q.subrange(off, end).subrange(1, next - off));
        assert(p.subrange(off + 1, next) =~= p.subrange(off, end).subrange(1, next - off));
    }
}

proof fn lemma_encode_utf8_concat(a: Seq<char>, b: Seq<char>)
    ensures
        encode_utf8(a + b) == encode_utf8(a) + encode_utf8(b),
    decreases a.len(),
{
    if a.len() == 0 {
        assert(a + b =~= b);
        assert(encode_utf8(a) + encode_utf8(b) =~= encode_utf8(b));
    } else {
        assert((a + b).drop_first() =~= a.drop_first() + b);
        lemma_encode_utf8_concat(a.drop_first(), b);
        assert(encode_utf8(a + b) =~= encode_utf8(a) + encode_utf8(b));
    }
}

proof fn lemma_encode_name_push(ls: Seq<Seq<u8>>, x: Seq<u8>)
    ensures
        encode_name(ls.push(x)).len() == encode_name(ls).len() + 1 + x.len(),
    decreases ls.len(),
{
    if ls.len() > 0 {
        assert(ls.push(x).drop_first() =~= ls.drop_first().push(x));
        assert(ls.push(x)[0] == ls[0]);
        lemma_encode_name_push(ls.drop_first(), x);
        assert(encode_name(ls).len() == 1 + ls[0].len() + encode_name(ls.drop_first()).len());
        assert(encode_name(ls.push(x)).len() == 1 + ls[0].len() + encode_name(ls.drop_first().push(x)).len());
    } else {
        assert(ls.push(x).drop_first() =~= Seq::<Seq<u8>>::empty());
        assert(ls.push(x)[0] == x);
        assert(encode_name(Seq::<Seq<u8>>::empty()).len() == 1);
        assert(encode_name(ls).len() == 1);
    }
}

/// The UTF-8 bytes of the dotted name are two fewer than the bytes of its
/// encoding (the leading length byte and the closing zero byte drop out;
/// every other length byte becomes a dot).
proof fn lemma_joined_len(ls: Seq<Seq<u8>>)
    requires
        ls.len() > 0,
        all_valid_utf8(ls),
    ensures
        encode_utf8(join_labels(decoded_labels(ls))).len() + 2 == encode_name(ls).len(),
    decreases ls.len(),
{
    broadcast use vstd::utf8::decode_utf8_encode_utf8;
    let last = ls.last();
    let init = ls.drop_last();
    assert(init.push(last) =~= ls);
    lemma_encode_name_push(init, last);
    assert(valid_utf8(ls[ls.len() - 1]));
    assert(decoded_labels(ls).last() == decode_utf8(last));
    if ls.len() == 1 {
        assert(init =~= Seq::<Seq<u8>>::empty());
    } else {
        assert(all_valid_utf8(init)) by {
            assert forall|i: int| 0 <= i < init.len() implies valid_utf8(#[trigger] init[i]) by {
                assert(init[i] == ls[i]);
            }
        }
        lemma_joined_len(init);
        assert(decoded_labels(ls).drop_last() =~= decoded_labels(init));
        let j = join_labels(decoded_labels(init));
        lemma_encode_utf8_concat(j + seq!['.'], decode_utf8(last));
        lemma_encode_utf8_concat(j, seq!['.']);
        assert(encode_utf8(seq!['.']).len() == 1) by {
            assert(seq!['.'].drop_first() =~= Seq::<char>::empty());
            assert(seq!['.'][0] as u32 == 46);
            assert(encode_utf8(seq!['.'].drop_first()) =~= Seq::<u8>::empty());
        }
    }
}

/// What a name that `parse_qname` reads looks like on the wire: it starts
/// after `off`, ends inside the packet with a zero byte, and the dotted name
/// takes exactly `end - off - 2` bytes of UTF-8 (none for the root name, which
/// is the single zero byte).
pub proof fn lemma_parse_qname_structure(p: Seq<u8>, off: int)
    ensures
        spec_parse_qname(p, off) matches Some((name, end)) ==> {
            &&& off < end <= p.len()
            &&& p[end - 1] == 0
            &&& end == off + 1 ==> name == Seq::<char>::empty()
            &&& end > off + 1 ==> encode_utf8(name).len() == end - off - 2
        },
{
    lemma_qname_bytes(p, off);
    if let Some((ls, end)) = qname_labels(p, off) {
        if all_valid_utf8(ls) {
            assert(p.subrange(off, end).len() == end - off);
            if ls.len() == 0 {
                assert(decoded_labels(ls) =~= Seq::<Seq<char>>::empty());
            } else {
                lemma_joined_len(ls);
            }
        }
    }
}

// ---------------------------------------------------------------------------
// Upstream server from resolv.conf
// ---------------------------------------------------------------------------

pub open spec fn strip_cr(l: Seq<char>) -> Seq<char> {
    if l.len() > 0 && l.last() == '\r' {
        l.drop_last()
    } else {
        l
    }
}

/// `str::lines`: pieces between `\n`, a `\r` before the `\n` dropped, and no
/// empty line after a final `\n`.
pub open spec fn lines_of(s: Seq<char>) -> Seq<Seq<char>> {
    let ps = split_char(s, '\n');
    ps.drop_last().map_values(|l: Seq<char>| strip_cr(l)) + if ps.last().len() == 0 {
        Seq::<Seq<char>>::empty()
    } else {
        seq![ps.last()]
    }
}

pub open spec fn starts_with(s: Seq<char>, prefix: Seq<char>) -> bool {
    prefix.len() <= s.len() && s.subrange(0, prefix.len() as int) == prefix
}

/// The keyword that opens a line naming a name server.
pub open spec fn ns_keyword() -> Seq<char> {
    seq!['n', 'a', 'm', 'e', 's', 'e', 'r', 'v', 'e', 'r']
}

/// The address text of a `nameserver` line, if the line is one.
pub open spec fn nameserver_value(line: Seq<char>) -> Option<Seq<char>> {
    let t = trim_ws(line);
    if starts_with(t, ns_keyword()) {
        Some(trim_ws(t.skip(10)))
    } else {
        None
    }
}

/// The address texts of the `nameserver` lines, in file order.
pub open spec fn nameservers(lines: Seq<Seq<char>>) -> Seq<Seq<char>>
    decreases lines.len(),
{
    if lines.len() == 0 {
        seq![]
    } else {
        nameservers(lines.drop_last()) + match nameserver_value(lines.last()) {
            Some(a) => seq![a],
            None => Seq::<Seq<char>>::empty(),
        }
    }
}

/// Candidates are collected line by line: those of two runs of lines are
/// the candidates of the first run followed by those of the second.
pub proof fn lemma_nameservers_concat(a: Seq<Seq<char>>, b: Seq<Seq<char>>)
    ensures
        nameservers(a + b) == nameservers(a) + nameservers(b),
    decreases b.len(),
{
    if b.len() == 0 {
        assert(a + b =~= a);
        assert(nameservers(a) + nameservers(b) =~= nameservers(a));
    } else {
        assert((a + b).drop_last() =~= a + b.drop_last());
        assert((a + b).last() == b.last());
        lemma_nameservers_concat(a, b.drop_last());
    }
}

/// One line contributes its `nameserver` address if it has one, else nothing.
pub proof fn lemma_nameservers_single(line: Seq<char>)
    ensures
        nameservers(seq![line]) == match nameserver_value(line) {
            Some(a) => seq![a],
            None => Seq::<Seq<char>>::empty(),
        },
{
    assert(seq![line].drop_last() =~= Seq::<Seq<char>>::empty());
    assert(nameservers(Seq::<Seq<char>>::empty()) == Seq::<Seq<char>>::empty());
    assert(nameservers(seq![line].drop_last()) == Seq::<Seq<char>>::empty());
    assert(seq![line].last() == line);
    match nameserver_value(line) {
        Some(a) => { assert(Seq::<Seq<char>>::empty() + seq![a] =~= seq![a]); },
        None => { assert(Seq::<Seq<char>>::empty() + Seq::<Seq<char>>::empty() =~= Seq::<Seq<char>>::empty()); },
    }
}

/// Blank lines, comments and other lines between `nameserver` lines leave
/// the candidates alone: the candidates around a line that names no server
/// are those before it followed by those after it.
pub proof fn lemma_nameservers_skip_other_lines(a: Seq<Seq<char>>, line: Seq<char>, b: Seq<Seq<char>>)
    requires
        nameserver_value(line) is None,
    ensures
        nameservers(a + seq![line] + b) == nameservers(a) + nameservers(b),
{
    lemma_nameservers_concat(a + seq![line], b);
    lemma_nameservers_concat(a, seq![line]);
    lemma_nameservers_single(line);
    assert(nameservers(a) + Seq::<Seq<char>>::empty() =~= nameservers(a));
}

/// A blank line names no server.
pub proof fn lemma_blank_line_names_no_server()
    ensures
        nameserver_value(Seq::<char>::empty()) is None,
{
    assert(trim_start_ws(Seq::<char>::empty()) == Seq::<char>::empty());
    assert(trim_end_ws(Seq::<char>::empty()) == Seq::<char>::empty());
}

/// The text is read line by line: a line ended by a newline is the first
/// line (less a carriage return before the newline), and the lines of the
/// rest follow it.
pub proof fn lemma_lines_of_cons(line: Seq<char>, rest: Seq<char>)
    requires
        forall|j: int| 0 <= j < line.len() ==> line[j] != '\n',
    ensures
        lines_of(line + seq!['\n'] + rest) == seq![strip_cr(line)] + lines_of(rest),
{
    let t = seq!['\n'] + rest;
    assert(line + seq!['\n'] + rest =~= line + t);
    lemma_split_prefix(line, t, '\n');
    lemma_split_nonempty(rest, '\n');
    assert(t.drop_first() =~= rest);
    assert(t[0] == '\n');
    assert(split_char(t, '\n') =~= seq![Seq::<char>::empty()] + split_char(rest, '\n'));
    assert(line + Seq::<char>::empty() =~= line);
    let ps = split_char(line + t, '\n');
    let pr = split_char(rest, '\n');
    assert(ps =~= seq![line] + pr);
    assert(ps.drop_last() =~= seq![line] + pr.drop_last());
    assert(ps.last() == pr.last());
    assert(ps.drop_last().map_values(|l: Seq<char>| strip_cr(l)) =~= seq![strip_cr(line)] + pr.drop_last().map_values(|l: Seq<char>| strip_cr(l)));
    assert(lines_of(line + seq!['\n'] + rest) =~= seq![strip_cr(line)] + lines_of(rest));
}

/// The candidate upstream servers named by the text of a `resolv.conf`: the
/// trimmed text after `nameserver` on each such line, in file order. The
/// first of them that reads as an IP address is the upstream server.
pub fn resolv_conf_nameservers(contents: &str) -> (r: Vec<String>)
    ensures
        r@.len() == nameservers(lines_of(contents@)).len(),
        forall|i: int| 0 <= i < r@.len() ==> #[trigger] r@[i]@ == nameservers(lines_of(contents@))[i],
{
    let cs = chars_of(contents);
    let csl = cs.as_slice();
    let ranges = split_ranges(csl, '\n');
    let n = ranges.len();
    let ghost ps = split_char(cs@, '\n');
    let ghost lines = lines_of(contents@);
    proof {
        lemma_split_nonempty(cs@, '\n');
        assert(lines.len() >= n - 1);
    }
    let mut out: Vec<String> = Vec::new();
    let mut i: usize = 0;
    while i < n
        invariant
            n == ranges@.len(),
            n == ps.len(),
            n >= 1,
            ps == split_char(cs@, '\n'),
            cs@ == contents@,
            lines == lines_of(contents@),
            i <= n,
            forall|j: int|
                0 <= j < ranges@.len() ==> #[trigger] ranges@[j].0 <= ranges@[j].1 <= cs@.len()
                    && cs@.subrange(ranges@[j].0 as int, ranges@[j].1 as int) == ps[j],
            out@.len() == nameservers(lines.take(i as int)).len(),
            forall|j: int| 0 <= j < out@.len() ==> #[trigger] out@[j]@ == nameservers(lines.take(i as int))[j],
            ns_keyword().len() == 10,
            csl@ == cs@,
            i == n ==> ps[n - 1].len() > 0,
        decreases n - i,
    {
        let (a, b0) = ranges[i];
        let last = i + 1 == n;
        if last && a == b0 {
            proof {
                assert(lines =~= ps.drop_last().map_values(|l: Seq<char>| strip_cr(l)));
                assert(lines.take(i as int) =~= lines);
            }
            return out;
        }
        let b = if !last && b0 > a && cs[b0 - 1] == '\r' { b0 - 1 } else { b0 };
        let ghost line = cs@.subrange(a as int, b as int);
        proof {
            if last {
                assert(lines[i as int] == ps[i as int]);
            } else {
                assert(lines[i as int] == strip_cr(ps[i as int]));
                if b0 > a && cs@[b0 - 1] == '\r' {
                    assert(ps[i as int].drop_last() =~= line);
                }
            }
            assert(lines[i as int] =~= line);
            assert(lines.take(i + 1).drop_last() =~= lines.take(i as int));
            assert(lines.take(i + 1).last() == line);
        }
        let (lo, hi) = trim_bounds(cs.as_slice(), a, b);
        let ghost t = cs@.subrange(lo as int, hi as int);
        let is_ns = hi - lo >= 10 && cs[lo] == 'n' && cs[lo + 1] == 'a' && cs[lo + 2] == 'm'
            && cs[lo + 3] == 'e' && cs[lo + 4] == 's' && cs[lo + 5] == 'e' && cs[lo + 6] == 'r'
            && cs[lo + 7] == 'v' && cs[lo + 8] == 'e' && cs[lo + 9] == 'r';
        proof {
                if last {
                assert(ps[i as int].len() > 0);
            }
            if hi - lo >= 10 {
                if is_ns {
                    assert(t.subrange(0, 10) =~= ns_keyword());
                } else {
                    assert(t.subrange(0, 10) != ns_keyword()) by {
                        if t.subrange(0, 10) == ns_keyword() {
                            assert forall|j: int| 0 <= j < 10 implies cs@[lo + j] == ns_keyword()[j] by {
                                assert(t.subrange(0, 10)[j] == t[j]);
                            }
                        }
                    }
                }
            }
        }
        if is_ns {
            let (x, y) = trim_bounds(cs.as_slice(), lo + 10, hi);
            proof {
                assert(cs@.subrange(lo + 10, hi as int) =~= t.skip(10));
            }
            let addr = contents.substring_char(x, y);
            out.push(addr.to_owned());
            proof {
                assert(nameservers(lines.take(i + 1)) =~= nameservers(lines.take(i as int)).push(cs@.subrange(x as int, y as int)));
            }
        } else {
            proof {
                assert(nameservers(lines.take(i + 1)) =~= nameservers(lines.take(i as int)));
            }
        }
        i = i + 1;
    }
    proof {
        assert(lines.take(n as int) =~= lines);
    }
    out
}

} // verus!
