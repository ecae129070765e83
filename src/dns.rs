//! The DNS side of the gateway: reading the question name out of a query,
//! writing a name as labels, and building the response for each outcome.
use vstd::prelude::*;
use crate::text::{lemma_split_dots_nonempty, lemma_split_dots_step, split_dots, str_eq};
use crate::utils::{extract_tld, ipv4_spec, name_before_tld, parse_a_record};

verus! {

/// Length of the fixed DNS header; the question starts right after it.
pub const HEADER_LEN: usize = 12;

/// How many compression pointers one name may follow before it is refused.
pub const MAX_POINTER_HOPS: u32 = 16;

/// The offset that a compression pointer `hi lo` names: its low 14 bits.
pub open spec fn pointer_target(hi: u8, lo: u8) -> int {
    (hi as int - 192) * 256 + lo as int
}

/// The labels of the name that starts at `pos` in `m`, following at most
/// `hops` compression pointers; `None` when the name is malformed or a read
/// would fall past the end of the message. A pointer ends the name.
pub open spec fn decode_at(m: Seq<u8>, pos: int, hops: nat) -> Option<Seq<Seq<u8>>>
    decreases hops, m.len() - pos,
{
    if pos < 0 || pos >= m.len() {
        None
    } else {
        let b = m[pos];
        if b == 0 {
            Some(Seq::<Seq<u8>>::empty())
        } else if b <= 63 {
            if pos + b >= m.len() {
                None
            } else {
                match decode_at(m, pos + b + 1, hops) {
                    Some(rest) => Some(seq![m.subrange(pos + 1, pos + b + 1)] + rest),
                    None => None,
                }
            }
        } else if b >= 192 {
            if pos + 1 >= m.len() || hops == 0 {
                None
            } else {
                decode_at(m, pointer_target(b, m[pos + 1]), (hops - 1) as nat)
            }
        } else {
            None
        }
    }
}

/// A label's bytes read as characters, one per byte.
pub open spec fn label_chars(l: Seq<u8>) -> Seq<char> {
    l.map_values(|b: u8| b as char)
}

/// Labels joined with dots.
pub open spec fn join_labels(ls: Seq<Seq<u8>>) -> Seq<char>
    decreases ls.len(),
{
    if ls.len() == 0 {
        Seq::<char>::empty()
    } else if ls.len() == 1 {
        label_chars(ls[0])
    } else {
        join_labels(ls.drop_last()) + seq!['.'] + label_chars(ls.last())
    }
}

/// The host name that the name starting at `pos` spells, if it is well formed.
pub open spec fn decoded_host(m: Seq<u8>, pos: int) -> Option<Seq<char>> {
    match decode_at(m, pos, MAX_POINTER_HOPS as nat) {
        Some(ls) => Some(join_labels(ls)),
        None => None,
    }
}

/// Where name decoding starts: `start` if given, else right after the header.
pub open spec fn start_of(start: Option<usize>) -> int {
    match start {
        Some(s) => s as int,
        None => HEADER_LEN as int,
    }
}

/// Reads the name at `start` (by default the question name) as a dotted host.
pub fn extract_host_from_dns_query(dns_query: &[u8], start: Option<usize>) -> (r: Result<String, ()>)
    ensures
        match r {
            Ok(h) => decoded_host(dns_query@, start_of(start)) == Some(h@),
            Err(_) => decoded_host(dns_query@, start_of(start)) is None,
        },
{
    let ghost m = dns_query@;
    let ghost target = decode_at(m, start_of(start), MAX_POINTER_HOPS as nat);
    let n = dns_query.len();
    let mut pos: usize = match start {
        Some(s) => s,
        None => HEADER_LEN,
    };
    let mut hops: u32 = MAX_POINTER_HOPS;
    let ghost mut acc: Seq<Seq<u8>> = Seq::empty();
    let mut out = String::new();
    let mut first = true;
    loop
        invariant
            n == m.len(),
            m == dns_query@,
            first == (acc.len() == 0),
            out@ == join_labels(acc),
            target == match decode_at(m, pos as int, hops as nat) {
                Some(rest) => Some(acc + rest),
                None => None,
            },
            target == decode_at(m, start_of(start), MAX_POINTER_HOPS as nat),
        decreases hops, n - pos,
    {
        if pos >= n {
            return Err(());
        }
        let b = dns_query[pos];
        if b == 0 {
            assert(acc + Seq::<Seq<u8>>::empty() =~= acc);
            return Ok(out);
        } else if b <= 63 {
            if b as usize >= n - pos {
                return Err(());
            }
            let ghost label = m.subrange(pos + 1, pos + b + 1);
            let ghost out0 = out@;
            if !first {
                out.push('.');
            }
            let mut j: usize = pos + 1;
            while j <= pos + b as usize
                invariant
                    pos + 1 <= j <= pos + b + 1,
                    pos + b < n,
                    n == m.len(),
                    m == dns_query@,
                    b == m[pos as int],
                    out@ == (if first { out0 } else { out0 + seq!['.'] }) + label_chars(
                        m.subrange(pos + 1, j as int),
                    ),
                decreases pos + b + 1 - j,
            {
                out.push(dns_query[j] as char);
                assert(label_chars(m.subrange(pos + 1, j + 1)) =~= label_chars(
                    m.subrange(pos + 1, j as int),
                ).push(dns_query[j as int] as char));
                j = j + 1;
            }
            proof {
                let acc2 = acc.push(label);
                assert(acc2.drop_last() =~= acc);
                assert(acc2.len() == 1 ==> acc2[0] == label);
                assert forall|rest: Seq<Seq<u8>>| acc + (seq![label] + rest) == acc2 + rest by {
                    assert(acc + (seq![label] + rest) =~= acc2 + rest);
                }
                acc = acc2;
            }
            first = false;
            pos = pos + b as usize + 1;
        } else if b >= 192 {
            if n - pos <= 1 || hops == 0 {
                return Err(());
            }
            pos = ((b - 192) as usize) * 256 + dns_query[pos + 1] as usize;
            hops = hops - 1;
        } else {
            return Err(());
        }
    }
}

/// The byte that stands for character `c` in a label.
pub open spec fn char_byte(c: char) -> u8 {
    ((c as u32) % 256) as u8
}

/// One label: its length byte, then its characters as bytes.
pub open spec fn segment_bytes(s: Seq<char>) -> Seq<u8> {
    seq![(s.len() % 256) as u8] + s.map_values(|c: char| char_byte(c))
}

pub open spec fn segments_bytes(segs: Seq<Seq<char>>) -> Seq<u8>
    decreases segs.len(),
{
    if segs.len() == 0 {
        Seq::<u8>::empty()
    } else {
        segments_bytes(segs.drop_last()) + segment_bytes(segs.last())
    }
}

/// A host written as DNS labels: one per dot-separated part, then a zero byte.
pub open spec fn encode_name(h: Seq<char>) -> Seq<u8> {
    segments_bytes(split_dots(h)).push(0)
}

/// Writes a host name as length-prefixed labels ended by a zero byte.
pub fn query_hostname_to_label_bytes(query_hostname: &str) -> (r: Vec<u8>)
    ensures
        r@ == encode_name(query_hostname@),
{
    let ghost s = query_hostname@;
    let n = query_hostname.unicode_len();
    let mut out: Vec<u8> = Vec::new();
    let mut cur: Vec<u8> = Vec::new();
    let mut i: usize = 0;
    assert(s.subrange(0, 0) =~= Seq::<char>::empty());
    assert(split_dots(Seq::<char>::empty()).drop_last() =~= Seq::<Seq<char>>::empty());
    while i < n
        invariant
            i <= n,
            n == s.len(),
            s == query_hostname@,
            split_dots(s.subrange(0, i as int)).len() >= 1,
            out@ == segments_bytes(split_dots(s.subrange(0, i as int)).drop_last()),
            cur@ == split_dots(s.subrange(0, i as int)).last().map_values(|c: char| char_byte(c)),
        decreases n - i,
    {
        let c = query_hostname.get_char(i);
        let ghost p = split_dots(s.subrange(0, i as int));
        proof {
            lemma_split_dots_step(s, i as int);
        }
        if c == '.' {
            let ghost out0 = out@;
            out.push((cur.len() % 256) as u8);
            out.append(&mut cur);
            proof {
                let q = split_dots(s.subrange(0, i + 1));
                assert(q.drop_last() =~= p);
                assert(p =~= p.drop_last().push(p.last()));
                assert(segments_bytes(p) == segments_bytes(p.drop_last()) + segment_bytes(p.last()));
                assert(out@ =~= out0 + segment_bytes(p.last()));
                assert(q.last().map_values(|c: char| char_byte(c)) =~= Seq::<u8>::empty());
            }
        } else {
            cur.push(((c as u32) % 256) as u8);
            proof {
                let q = split_dots(s.subrange(0, i + 1));
                assert(q.drop_last() =~= p.drop_last());
                assert(q.last().map_values(|c: char| char_byte(c)) =~= p.last().map_values(
                    |c: char| char_byte(c),
                ).push(char_byte(c)));
            }
        }
        i = i + 1;
    }
    let ghost p = split_dots(s);
    assert(s.subrange(0, n as int) =~= s);
    let ghost out0 = out@;
    out.push((cur.len() % 256) as u8);
    out.append(&mut cur);
    out.push(0);
    proof {
        assert(p =~= p.drop_last().push(p.last()));
        assert(segments_bytes(p) == segments_bytes(p.drop_last()) + segment_bytes(p.last()));
        assert(out@ =~= (out0 + segment_bytes(p.last())).push(0));
    }
    out
}

/// Bytes of a DNS response, or `None` where no response can be given.
pub struct Answer {
    pub bytes: Option<Vec<u8>>,
}

/// A domain record as the name registry returns it.
pub struct BnsApiDomain {
    pub tld: String,
    pub name: String,
    pub history: Vec<String>,
    pub burned: Option<bool>,
    pub metadata_hash: Option<String>,
    pub resolved_address: Option<String>,
}

/// The registry's reply to a domain lookup.
pub struct BnsApiResponse {
    pub domain: BnsApiDomain,
}

/// A registry record with its metadata document, as key and value pairs.
/// The metadata is empty where the record names no document or it could
/// not be fetched.
pub struct BnsDomain {
    pub api_domain: BnsApiDomain,
    pub metadata: Vec<(String, String)>,
}

/// How a queried name is answered.
pub enum QueryResult {
    Cname(String),
    A([u8; 4], Option<String>),
    NXDomain,
    NonBns,
}

/// The mathematical value of a `QueryResult`.
pub enum Outcome {
    Cname(Seq<char>),
    A(Seq<u8>, Option<Seq<char>>),
    NXDomain,
    NonBns,
}

pub open spec fn opt_view(o: Option<String>) -> Option<Seq<char>> {
    match o {
        Some(s) => Some(s@),
        None => None,
    }
}

impl View for QueryResult {
    type V = Outcome;

    open spec fn view(&self) -> Outcome {
        match self {
            QueryResult::Cname(t) => Outcome::Cname(t@),
            QueryResult::A(ip, r) => Outcome::A(ip@, opt_view(*r)),
            QueryResult::NXDomain => Outcome::NXDomain,
            QueryResult::NonBns => Outcome::NonBns,
        }
    }
}

/// The value under `key` in a metadata list: its first entry with that key.
pub open spec fn meta_get(m: Seq<(String, String)>, key: Seq<char>) -> Option<Seq<char>>
    decreases m.len(),
{
    if m.len() == 0 {
        None
    } else if m[0].0@ == key {
        Some(m[0].1@)
    } else {
        meta_get(m.drop_first(), key)
    }
}

/// The address this gateway answers with for names it serves itself.
pub open spec fn self_ip_spec() -> Seq<u8> {
    seq![127u8, 0u8, 0u8, 1u8]
}

/// Where a name that points at a registry account is sent.
pub open spec fn account_url(address: Seq<char>) -> Seq<char> {
    "https://creeper.banano.cc/account/"@ + address
}

/// The outcome of a registry lookup, in this order: a valid `A` entry, a
/// `CNAME` entry, a `redirect` entry, the record's resolved address, else
/// no such domain. A failed lookup is no such domain too.
pub open spec fn bns_outcome_spec(lookup: Option<BnsDomain>) -> Outcome {
    match lookup {
        None => Outcome::NXDomain,
        Some(d) => {
            let md = d.metadata@;
            if meta_get(md, "A"@) is Some && ipv4_spec(meta_get(md, "A"@)->0) is Some {
                Outcome::A(ipv4_spec(meta_get(md, "A"@)->0)->0, None)
            } else if meta_get(md, "CNAME"@) is Some {
                Outcome::Cname(meta_get(md, "CNAME"@)->0)
            } else if meta_get(md, "redirect"@) is Some {
                Outcome::A(self_ip_spec(), Some(meta_get(md, "redirect"@)->0))
            } else if d.api_domain.resolved_address is Some {
                Outcome::A(
                    self_ip_spec(),
                    Some(account_url(d.api_domain.resolved_address->0@)),
                )
            } else {
                Outcome::NXDomain
            }
        },
    }
}

fn self_ip() -> (r: [u8; 4])
    ensures
        r@ == self_ip_spec(),
{
    let r: [u8; 4] = [127, 0, 0, 1];
    assert(r@ =~= self_ip_spec());
    r
}

/// Looks up `key` in a metadata list.
pub fn metadata_get<'a>(metadata: &'a Vec<(String, String)>, key: &str) -> (r: Option<&'a String>)
    ensures
        match r {
            Some(v) => meta_get(metadata@, key@) == Some(v@),
            None => meta_get(metadata@, key@) is None,
        },
{
    let mut i: usize = 0;
    assert(metadata@.subrange(0, metadata@.len() as int) =~= metadata@);
    while i < metadata.len()
        invariant
            i <= metadata@.len(),
            meta_get(metadata@, key@) == meta_get(metadata@.subrange(i as int, metadata@.len() as int), key@),
        decreases metadata@.len() - i,
    {
        let ghost rest = metadata@.subrange(i as int, metadata@.len() as int);
        assert(rest.drop_first() =~= metadata@.subrange(i + 1, metadata@.len() as int));
        if str_eq(metadata[i].0.as_str(), key) {
            return Some(&metadata[i].1);
        }
        i = i + 1;
    }
    None
}

/// Decides how a managed name is answered from what the registry returned
/// (`None` where the lookup failed).
pub fn bns_outcome(lookup: Option<BnsDomain>) -> (r: QueryResult)
    ensures
        r@ == bns_outcome_spec(lookup),
{
    match lookup {
        None => QueryResult::NXDomain,
        Some(d) => {
            if let Some(a_record) = metadata_get(&d.metadata, "A") {
                if let Some(a) = parse_a_record(a_record.as_str()) {
                    return QueryResult::A(a, None);
                }
            }
            if let Some(cname_record) = metadata_get(&d.metadata, "CNAME") {
                return QueryResult::Cname(cname_record.clone());
            }
            if let Some(redirect) = metadata_get(&d.metadata, "redirect") {
                return QueryResult::A(self_ip(), Some(redirect.clone()));
            }
            if let Some(resolved_address) = &d.api_domain.resolved_address {
                let url = "https://creeper.banano.cc/account/".to_owned();
                return QueryResult::A(self_ip(), Some(url.concat(resolved_address.as_str())));
            }
            QueryResult::NXDomain
        },
    }
}

impl View for Answer {
    type V = Option<Seq<u8>>;

    open spec fn view(&self) -> Option<Seq<u8>> {
        match self.bytes {
            Some(b) => Some(b@),
            None => None,
        }
    }
}

/// The response header: id 0, QR set and every other flag clear, the given
/// RCODE, question and answer counts, and no authority or additional records.
pub open spec fn header(rcode: u8, qdcount: u8, ancount: u8) -> Seq<u8> {
    seq![0u8, 0u8, 128u8, rcode, 0u8, qdcount, 0u8, ancount, 0u8, 0u8, 0u8, 0u8]
}

/// The start of the one answer record: a pointer to the question name at
/// offset 12, the record type, class IN and a TTL of 600 seconds.
pub open spec fn answer_prefix(rtype: u8) -> Seq<u8> {
    seq![192u8, 12u8, 0u8, rtype, 0u8, 1u8, 0u8, 0u8, 2u8, 88u8]
}

/// Where the question type stands in a query whose question name is `host`
/// written without compression.
pub open spec fn qtype_offset(host: Seq<char>) -> int {
    HEADER_LEN + encode_name(host).len()
}

pub open spec fn rcode_noerror() -> u8 {
    0
}

pub open spec fn rcode_servfail() -> u8 {
    2
}

pub open spec fn rcode_nxdomain() -> u8 {
    3
}

/// The response to query `q` for `host` with outcome `o`; `None` where the
/// query is too short to hold the question type that a CNAME answer echoes,
/// where the CNAME target does not fit a record, and for a foreign name.
pub open spec fn response_spec(q: Seq<u8>, host: Seq<char>, o: Outcome) -> Option<Seq<u8>> {
    match o {
        Outcome::Cname(target) => {
            let at = qtype_offset(host);
            let rdata = encode_name(target);
            if at + 1 < q.len() && rdata.len() <= 65535 {
                Some(
                    header(rcode_noerror(), 1, 1) + encode_name(host) + seq![q[at], q[at + 1], 0u8, 1u8]
                        + answer_prefix(5) + seq![(rdata.len() / 256) as u8, (rdata.len() % 256) as u8]
                        + rdata,
                )
            } else {
                None
            }
        },
        Outcome::A(ip, _) => Some(
            header(rcode_noerror(), 1, 1) + encode_name(host) + seq![0u8, 1u8, 0u8, 1u8]
                + answer_prefix(1) + seq![0u8, 4u8] + ip,
        ),
        Outcome::NXDomain => Some(header(rcode_nxdomain(), 0, 0)),
        Outcome::NonBns => None,
    }
}

/// The response sent when the upstream resolver cannot be reached.
pub open spec fn servfail_spec() -> Seq<u8> {
    header(rcode_servfail(), 0, 0)
}

fn response_header(rcode: u8, qdcount: u8, ancount: u8) -> (r: Vec<u8>)
    ensures
        r@ == header(rcode, qdcount, ancount),
{
    let r: Vec<u8> = vec![0, 0, 128, rcode, 0, qdcount, 0, ancount, 0, 0, 0, 0];
    assert(r@ =~= header(rcode, qdcount, ancount));
    r
}

fn answer_start(rtype: u8) -> (r: Vec<u8>)
    ensures
        r@ == answer_prefix(rtype),
{
    let r: Vec<u8> = vec![192, 12, 0, rtype, 0, 1, 0, 0, 2, 88];
    assert(r@ =~= answer_prefix(rtype));
    r
}

/// Builds the response for a managed name from its outcome.
pub fn answer_for_outcome(dns_query: &[u8], query_host: &str, outcome: &QueryResult) -> (r: Answer)
    ensures
        r@ == response_spec(dns_query@, query_host@, outcome@),
{
    match outcome {
        QueryResult::Cname(cname) => {
            let mut host_label_bytes = query_hostname_to_label_bytes(query_host);
            let mut rdata = query_hostname_to_label_bytes(cname.as_str());
            if host_label_bytes.len() >= dns_query.len() || dns_query.len() - host_label_bytes.len()
                <= HEADER_LEN + 1 || rdata.len() > 65535 {
                return Answer { bytes: None };
            }
            let at = HEADER_LEN + host_label_bytes.len();
            let mut resp = response_header(0, 1, 1);
            let ghost h = host_label_bytes@;
            let ghost rd = rdata@;
            resp.append(&mut host_label_bytes);
            let mut question_end: Vec<u8> = vec![dns_query[at], dns_query[at + 1], 0, 1];
            resp.append(&mut question_end);
            let mut ans = answer_start(5);
            resp.append(&mut ans);
            let mut rdlength: Vec<u8> = vec![(rdata.len() / 256) as u8, (rdata.len() % 256) as u8];
            resp.append(&mut rdlength);
            resp.append(&mut rdata);
            assert(resp@ =~= header(rcode_noerror(), 1, 1) + h + seq![
                dns_query@[at as int],
                dns_query@[at + 1],
                0u8,
                1u8,
            ] + answer_prefix(5) + seq![(rd.len() / 256) as u8, (rd.len() % 256) as u8] + rd);
            Answer { bytes: Some(resp) }
        },
        QueryResult::A(ip, _) => {
            let mut resp = response_header(0, 1, 1);
            let mut host_label_bytes = query_hostname_to_label_bytes(query_host);
            let ghost h = host_label_bytes@;
            resp.append(&mut host_label_bytes);
            let mut question_end: Vec<u8> = vec![0, 1, 0, 1];
            resp.append(&mut question_end);
            let mut ans = answer_start(1);
            resp.append(&mut ans);
            let mut rdata: Vec<u8> = vec![0, 4, ip[0], ip[1], ip[2], ip[3]];
            resp.append(&mut rdata);
            assert(resp@ =~= header(rcode_noerror(), 1, 1) + h + seq![0u8, 1u8, 0u8, 1u8]
                + answer_prefix(1) + seq![0u8, 4u8] + ip@);
            Answer { bytes: Some(resp) }
        },
        QueryResult::NXDomain => Answer { bytes: Some(response_header(3, 0, 0)) },
        QueryResult::NonBns => Answer { bytes: None },
    }
}

/// Relays what the upstream resolver returned, or answers SERVFAIL where it
/// could not be reached (`None`).
pub fn answer_for_forward(upstream: Option<Vec<u8>>) -> (r: Answer)
    ensures
        r@ == Some(
            match upstream {
                Some(b) => b@,
                None => servfail_spec(),
            },
        ),
{
    match upstream {
        Some(b) => Answer { bytes: Some(b) },
        None => Answer { bytes: Some(response_header(2, 0, 0)) },
    }
}

/// How deeply the pipeline may call itself before it gives no answer.
pub const MAX_NESTING: usize = 2;

/// The top-level labels that this gateway resolves through the registry.
pub open spec fn managed_tld(tld: Seq<char>) -> bool {
    tld == "mictest"@ || tld == "ban"@ || tld == "jtv"@
}

/// Whether `tld` is one of the managed top-level labels.
pub fn is_managed_tld(tld: &str) -> (r: bool)
    ensures
        r == managed_tld(tld@),
{
    str_eq(tld, "mictest") || str_eq(tld, "ban") || str_eq(tld, "jtv")
}

/// What the pipeline does next with a query.
pub enum DnsStep {
    /// The query cannot be answered: the client gets no DNS message.
    NoAnswer,
    /// The name is foreign: the query goes to the upstream resolver as it is.
    Forward,
    /// The name is managed: look it up in the registry, then answer with
    /// `answer_for_outcome`.
    Resolve { host: String, domain_name: String, tld: String },
}

/// The mathematical value of a `DnsStep`.
pub enum StepSpec {
    NoAnswer,
    Forward,
    Resolve(Seq<char>, Seq<char>, Seq<char>),
}

impl View for DnsStep {
    type V = StepSpec;

    open spec fn view(&self) -> StepSpec {
        match self {
            DnsStep::NoAnswer => StepSpec::NoAnswer,
            DnsStep::Forward => StepSpec::Forward,
            DnsStep::Resolve { host, domain_name, tld } => StepSpec::Resolve(
                host@,
                domain_name@,
                tld@,
            ),
        }
    }
}

/// The step for a query at nesting depth `nested`: no answer past the depth
/// bound or where the question name is malformed; else resolve a managed
/// name and forward any other.
pub open spec fn step_spec(q: Seq<u8>, nested: int) -> StepSpec {
    if nested > MAX_NESTING {
        StepSpec::NoAnswer
    } else {
        match decoded_host(q, HEADER_LEN as int) {
            None => StepSpec::NoAnswer,
            Some(h) => {
                let tld = split_dots(h).last();
                if managed_tld(tld) {
                    StepSpec::Resolve(h, name_before_tld(h), tld)
                } else {
                    StepSpec::Forward
                }
            },
        }
    }
}

/// Reads the question of a query and decides how it is to be answered.
pub fn plan_dns_query(dns_query: &[u8], nested: usize) -> (r: DnsStep)
    ensures
        r@ == step_spec(dns_query@, nested as int),
{
    if nested > MAX_NESTING {
        return DnsStep::NoAnswer;
    }
    match extract_host_from_dns_query(dns_query, None) {
        Err(_) => DnsStep::NoAnswer,
        Ok(host) => {
            let (domain_name, tld) = extract_tld(host.as_str());
            if is_managed_tld(tld) {
                let domain_name = domain_name.to_owned();
                let tld = tld.to_owned();
                DnsStep::Resolve { host, domain_name, tld }
            } else {
                DnsStep::Forward
            }
        },
    }
}

/// Labels written out on the wire: each one's length byte, then its bytes.
pub open spec fn wire_labels(ls: Seq<Seq<u8>>) -> Seq<u8>
    decreases ls.len(),
{
    if ls.len() == 0 {
        Seq::<u8>::empty()
    } else {
        wire_labels(ls.drop_last()) + seq![ls.last().len() as u8] + ls.last()
    }
}

/// Every label is 1 to 63 bytes long, so its length byte reads as a label.
pub open spec fn plain_labels(ls: Seq<Seq<u8>>) -> bool {
    forall|i: int| 0 <= i < ls.len() ==> 1 <= (#[trigger] ls[i]).len() <= 63
}

/// Labels written out in full at `pos` are read back one by one, and the
/// name goes on with whatever follows them.
pub proof fn lemma_decode_written_labels(m: Seq<u8>, pos: int, ls: Seq<Seq<u8>>, hops: nat)
    requires
        plain_labels(ls),
        0 <= pos,
        pos + wire_labels(ls).len() <= m.len(),
        m.subrange(pos, pos + wire_labels(ls).len()) == wire_labels(ls),
    ensures
        decode_at(m, pos, hops) == match decode_at(m, pos + wire_labels(ls).len(), hops) {
            Some(r) => Some(ls + r),
            None => None,
        },
    decreases ls.len(),
{
    let w = wire_labels(ls);
    if ls.len() == 0 {
        assert forall|r: Seq<Seq<u8>>| ls + r == r by {
            assert(ls + r =~= r);
        }
    } else {
        let init = ls.drop_last();
        let last = ls.last();
        let wi = wire_labels(init);
        let p1 = pos + wi.len();
        let len = last.len();
        assert(plain_labels(init)) by {
            assert forall|i: int| 0 <= i < init.len() implies 1 <= (#[trigger] init[i]).len() <= 63 by {
                assert(init[i] == ls[i]);
            }
        }
        assert(1 <= len <= 63) by {
            assert(ls[ls.len() - 1] == last);
        }
        assert(w == wi + seq![len as u8] + last);
        assert(m.subrange(pos, p1) =~= w.subrange(0, wi.len() as int));
        assert(w.subrange(0, wi.len() as int) =~= wi);
        lemma_decode_written_labels(m, pos, init, hops);
        assert(m[p1] == w[wi.len() as int]);
        assert(m[p1] == len as u8);
        assert(m.subrange(p1 + 1, p1 + len + 1) =~= last) by {
            assert forall|k: int| 0 <= k < len implies m.subrange(p1 + 1, p1 + len + 1)[k] == last[k] by {
                assert(m[p1 + 1 + k] == w[wi.len() + 1 + k]);
            }
        }
        assert(p1 + len + 1 == pos + w.len());
        assert forall|r: Seq<Seq<u8>>| init + (seq![last] + r) == ls + r by {
            assert(init + (seq![last] + r) =~= ls + r);
        }
    }
}

/// The host of labels `ls` written as bytes, one byte per character.
pub open spec fn host_labels(h: Seq<char>) -> Seq<Seq<u8>> {
    split_dots(h).map_values(|s: Seq<char>| s.map_values(|c: char| char_byte(c)))
}

/// A host that a query can carry written out: every dot-separated part has
/// 1 to 63 characters, each of them a single byte.
pub open spec fn valid_host(h: Seq<char>) -> bool {
    &&& forall|i: int| 0 <= i < h.len() ==> char_byte(#[trigger] h[i]) as char == h[i]
    &&& forall|i: int|
        0 <= i < split_dots(h).len() ==> 1 <= (#[trigger] split_dots(h)[i]).len() <= 63
}

proof fn lemma_segments_are_wire(segs: Seq<Seq<char>>)
    requires
        forall|i: int| 0 <= i < segs.len() ==> (#[trigger] segs[i]).len() <= 63,
    ensures
        segments_bytes(segs) == wire_labels(
            segs.map_values(|s: Seq<char>| s.map_values(|c: char| char_byte(c))),
        ),
    decreases segs.len(),
{
    let f = |s: Seq<char>| s.map_values(|c: char| char_byte(c));
    if segs.len() > 0 {
        let init = segs.drop_last();
        assert forall|i: int| 0 <= i < init.len() implies (#[trigger] init[i]).len() <= 63 by {
            assert(init[i] == segs[i]);
        }
        lemma_segments_are_wire(init);
        let ls = segs.map_values(f);
        assert(ls.drop_last() =~= init.map_values(f));
        assert(segs[segs.len() - 1].len() <= 63);
        assert(segment_bytes(segs.last()) =~= seq![ls.last().len() as u8] + ls.last());
    }
}

proof fn lemma_join_split(h: Seq<char>)
    requires
        forall|i: int| 0 <= i < h.len() ==> char_byte(#[trigger] h[i]) as char == h[i],
    ensures
        join_labels(host_labels(h)) == h,
    decreases h.len(),
{
    lemma_split_dots_nonempty(h);
    if h.len() == 0 {
        assert(host_labels(h) =~~= seq![Seq::<u8>::empty()]);
        assert(label_chars(Seq::<u8>::empty()) =~= h);
    } else {
        let t = h.drop_last();
        let c = h.last();
        assert forall|i: int| 0 <= i < t.len() implies char_byte(#[trigger] t[i]) as char == t[i] by {
            assert(t[i] == h[i]);
        }
        lemma_join_split(t);
        lemma_split_dots_nonempty(t);
        let p = split_dots(t);
        let lt = host_labels(t);
        let lh = host_labels(h);
        assert(lt.len() == p.len());
        if c == '.' {
            assert(lh =~~= lt.push(Seq::<u8>::empty()));
            assert(lh.drop_last() =~= lt);
            assert(label_chars(Seq::<u8>::empty()) =~= Seq::<char>::empty());
            assert(h =~= t + seq!['.'] + Seq::<char>::empty());
        } else {
            assert(char_byte(h[h.len() - 1]) as char == h[h.len() - 1]);
            let b = char_byte(c);
            assert(lh =~~= lt.update(lt.len() - 1, lt.last().push(b)));
            assert(label_chars(lt.last().push(b)) =~= label_chars(lt.last()).push(c));
            if p.len() == 1 {
                assert(lh.len() == 1);
                assert(h =~= t.push(c));
            } else {
                assert(lh.drop_last() =~= lt.drop_last());
                assert(join_labels(lt) == join_labels(lt.drop_last()) + seq!['.'] + label_chars(lt.last()));
                assert(h =~= t.push(c));
                assert(h =~= join_labels(lt.drop_last()) + seq!['.'] + label_chars(lt.last()).push(c));
            }
        }
    }
}

/// Decoding the question of a query whose name is a valid host written out
/// with `query_hostname_to_label_bytes` gives that host back.
pub proof fn lemma_decode_encoded_host(m: Seq<u8>, h: Seq<char>)
    requires
        valid_host(h),
        HEADER_LEN + encode_name(h).len() <= m.len(),
        m.subrange(HEADER_LEN as int, HEADER_LEN + encode_name(h).len()) == encode_name(h),
    ensures
        decoded_host(m, HEADER_LEN as int) == Some(h),
{
    let segs = split_dots(h);
    let ls = host_labels(h);
    lemma_segments_are_wire(segs);
    let w = wire_labels(ls);
    assert(encode_name(h) == w.push(0));
    assert(plain_labels(ls)) by {
        assert forall|i: int| 0 <= i < ls.len() implies 1 <= (#[trigger] ls[i]).len() <= 63 by {
            assert(1 <= segs[i].len() <= 63);
        }
    }
    let pos = HEADER_LEN as int;
    assert(m.subrange(pos, pos + w.len()) =~= encode_name(h).subrange(0, w.len() as int));
    assert(encode_name(h).subrange(0, w.len() as int) =~= w);
    lemma_decode_written_labels(m, pos, ls, MAX_POINTER_HOPS as nat);
    assert(m[pos + w.len()] == encode_name(h)[w.len() as int]);
    assert(ls + Seq::<Seq<u8>>::empty() =~= ls);
    lemma_join_split(h);
}

/// A question name made of labels `prefix` and then a compression pointer
/// to labels `rest` elsewhere in the message decodes to the same host as the
/// name with `rest` written out after `prefix`.
pub proof fn lemma_pointer_matches_written_name(
    m1: Seq<u8>,
    m2: Seq<u8>,
    prefix: Seq<Seq<u8>>,
    rest: Seq<Seq<u8>>,
    target: int,
)
    requires
        plain_labels(prefix),
        plain_labels(rest),
        0 <= target < 16384,
        HEADER_LEN + wire_labels(prefix).len() + 2 <= m1.len(),
        m1.subrange(HEADER_LEN as int, HEADER_LEN + wire_labels(prefix).len()) == wire_labels(prefix),
        m1[HEADER_LEN + wire_labels(prefix).len()] == (192 + target / 256) as u8,
        m1[HEADER_LEN + wire_labels(prefix).len() + 1] == (target % 256) as u8,
        target + wire_labels(rest).len() < m1.len(),
        m1.subrange(target, target + wire_labels(rest).len()) == wire_labels(rest),
        m1[target + wire_labels(rest).len()] == 0,
        HEADER_LEN + wire_labels(prefix + rest).len() < m2.len(),
        m2.subrange(HEADER_LEN as int, HEADER_LEN + wire_labels(prefix + rest).len()) == wire_labels(
            prefix + rest,
        ),
        m2[HEADER_LEN + wire_labels(prefix + rest).len()] == 0,
    ensures
        decoded_host(m1, HEADER_LEN as int) == decoded_host(m2, HEADER_LEN as int),
        decoded_host(m1, HEADER_LEN as int) == Some(join_labels(prefix + rest)),
{
    let hops = MAX_POINTER_HOPS as nat;
    let pos = HEADER_LEN as int;
    let k = pos + wire_labels(prefix).len();
    let all = prefix + rest;
    lemma_decode_written_labels(m1, pos, prefix, hops);
    assert(pointer_target(m1[k], m1[k + 1]) == target);
    assert(decode_at(m1, k, hops) == decode_at(m1, target, (hops - 1) as nat));
    lemma_decode_written_labels(m1, target, rest, (hops - 1) as nat);
    assert(rest + Seq::<Seq<u8>>::empty() =~= rest);
    assert(plain_labels(all)) by {
        assert forall|i: int| 0 <= i < all.len() implies 1 <= (#[trigger] all[i]).len() <= 63 by {
            if i < prefix.len() {
                assert(all[i] == prefix[i]);
            } else {
                assert(all[i] == rest[i - prefix.len()]);
            }
        }
    }
    lemma_decode_written_labels(m2, pos, all, hops);
    assert(all + Seq::<Seq<u8>>::empty() =~= all);
}

/// A question name whose labels `prefix` are followed by a compression
/// pointer to an offset at or past the end of the message is malformed.
pub proof fn lemma_pointer_past_end_fails(m: Seq<u8>, prefix: Seq<Seq<u8>>)
    requires
        plain_labels(prefix),
        HEADER_LEN + wire_labels(prefix).len() + 2 <= m.len(),
        m.subrange(HEADER_LEN as int, HEADER_LEN + wire_labels(prefix).len()) == wire_labels(prefix),
        m[HEADER_LEN + wire_labels(prefix).len()] >= 192,
        pointer_target(
            m[HEADER_LEN + wire_labels(prefix).len()],
            m[HEADER_LEN + wire_labels(prefix).len() + 1],
        ) >= m.len(),
    ensures
        decoded_host(m, HEADER_LEN as int) is None,
{
    let hops = MAX_POINTER_HOPS as nat;
    let k = HEADER_LEN + wire_labels(prefix).len();
    lemma_decode_written_labels(m, HEADER_LEN as int, prefix, hops);
    let target = pointer_target(m[k], m[k + 1]);
    assert(decode_at(m, target, (hops - 1) as nat) is None);
    assert(decode_at(m, k, hops) is None);
}

/// A question name whose labels `prefix` are followed by a label whose
/// length byte reaches past the end of the message is malformed.
pub proof fn lemma_label_overrun_fails(m: Seq<u8>, prefix: Seq<Seq<u8>>)
    requires
        plain_labels(prefix),
        HEADER_LEN + wire_labels(prefix).len() < m.len(),
        m.subrange(HEADER_LEN as int, HEADER_LEN + wire_labels(prefix).len()) == wire_labels(prefix),
        1 <= m[HEADER_LEN + wire_labels(prefix).len()] <= 63,
        HEADER_LEN + wire_labels(prefix).len() + m[HEADER_LEN + wire_labels(prefix).len()] >= m.len(),
    ensures
        decoded_host(m, HEADER_LEN as int) is None,
{
    lemma_decode_written_labels(m, HEADER_LEN as int, prefix, MAX_POINTER_HOPS as nat);
}

/// A valid `A` entry in the metadata takes precedence over a `CNAME` entry.
pub proof fn lemma_a_record_precedes_cname(d: BnsDomain)
    requires
        meta_get(d.metadata@, "A"@) is Some,
        ipv4_spec(meta_get(d.metadata@, "A"@)->0) is Some,
        meta_get(d.metadata@, "CNAME"@) is Some,
    ensures
        bns_outcome_spec(Some(d)) == Outcome::A(ipv4_spec(meta_get(d.metadata@, "A"@)->0)->0, None),
{
}

/// The NXDOMAIN response is a bare header: RCODE 3, no question, no answer.
pub proof fn lemma_nxdomain_response(q: Seq<u8>, host: Seq<char>)
    ensures
        response_spec(q, host, Outcome::NXDomain) is Some,
        ({
            let r = response_spec(q, host, Outcome::NXDomain)->0;
            &&& r.len() == HEADER_LEN
            &&& r[3] % 16 == 3
            &&& r[4] == 0 && r[5] == 0
            &&& r[6] == 0 && r[7] == 0
        }),
{
}

/// The SERVFAIL response is a bare header: RCODE 2, no question, no answer.
pub proof fn lemma_servfail_response()
    ensures
        servfail_spec().len() == HEADER_LEN,
        servfail_spec()[3] % 16 == 2,
        servfail_spec()[4] == 0 && servfail_spec()[5] == 0,
        servfail_spec()[6] == 0 && servfail_spec()[7] == 0,
{
}

/// Past the nesting bound the pipeline gives no answer, whatever the query.
pub proof fn lemma_depth_guard(q: Seq<u8>, nested: int)
    requires
        nested > MAX_NESTING,
    ensures
        step_spec(q, nested) == StepSpec::NoAnswer,
{
}

} // verus!
