//! The stub resolver's state: a read-through cache of TTL-bounded record
//! sets keyed by domain and record type, the steps a query takes around
//! the one wire round trip, and the address-selection rule with its
//! IPv4-first fallback.
//!
//! The resolver here is everything about a query except the socket: a
//! caller looks the key up in the cache, and on a miss sends the encoded
//! query over UDP itself, then hands the reply bytes back to
//! `complete_query`.

use vstd::prelude::*;
use vstd::string::StringSliceAdditionalSpecFns;
use crate::dns_codec::{encode_query, labels_fit, parse_response, spec_encode_query,
    spec_parse_response};
use crate::dns_types::{DnsError, DnsRecord, DnsRecordData, DnsRecordType, SpecDnsRecord,
    records_view};
use crate::ip::IpAddress;

verus! {

/// One cache line: a record set and the time, in milliseconds, at which
/// it stops being valid.
pub struct DnsCacheEntry {
    pub records: Vec<DnsRecord>,
    pub expires_at: u64,
}

/// The cache key of a domain and record type: the domain, a colon, and
/// the type's name — exact string equality, no case normalization.
pub open spec fn spec_cache_key(domain: Seq<char>, t: DnsRecordType) -> Seq<char> {
    domain + ":"@ + spec_type_label(t)
}

/// The name of a record type as it appears in cache keys.
pub open spec fn spec_type_label(t: DnsRecordType) -> Seq<char> {
    match t {
        DnsRecordType::A => "A"@,
        DnsRecordType::AAAA => "AAAA"@,
        DnsRecordType::CNAME => "CNAME"@,
        DnsRecordType::NS => "NS"@,
        DnsRecordType::MX => "MX"@,
    }
}

/// The name of a record type as it appears in cache keys.
fn type_label(t: DnsRecordType) -> (r: &'static str)
    ensures
        r@ == spec_type_label(t),
{
    match t {
        DnsRecordType::A => "A",
        DnsRecordType::AAAA => "AAAA",
        DnsRecordType::CNAME => "CNAME",
        DnsRecordType::NS => "NS",
        DnsRecordType::MX => "MX",
    }
}

/// The cache key of a domain and record type.
pub fn cache_key(domain: &str, record_type: DnsRecordType) -> (r: String)
    ensures
        r@ == spec_cache_key(domain@, record_type),
{
    let mut s = domain.to_owned();
    s.append(":");
    s.append(type_label(record_type));
    s
}

/// What a cache holds: each key's record set and expiry.
pub type SpecDnsCache = Map<Seq<char>, (Seq<SpecDnsRecord>, u64)>;

/// The value of one entry.
pub open spec fn entry_value(e: DnsCacheEntry) -> (Seq<SpecDnsRecord>, u64) {
    (records_view(e.records@), e.expires_at)
}

/// The map an entry list stands for.
pub open spec fn cache_map(s: Seq<(String, DnsCacheEntry)>) -> SpecDnsCache
    decreases s.len(),
{
    if s.len() == 0 {
        Map::empty()
    } else {
        cache_map(s.drop_last()).insert(s.last().0@, entry_value(s.last().1))
    }
}

/// No two entries share a key.
pub open spec fn unique_keys(s: Seq<(String, DnsCacheEntry)>) -> bool {
    forall|i: int, j: int| 0 <= i < j < s.len() ==> s[i].0@ != s[j].0@
}

/// A key is in the map exactly when some entry carries it.
proof fn lemma_cache_map_contains(s: Seq<(String, DnsCacheEntry)>, k: Seq<char>)
    ensures
        cache_map(s).contains_key(k) <==> exists|i: int| 0 <= i < s.len() && s[i].0@ == k,
    decreases s.len(),
{
    if s.len() > 0 {
        lemma_cache_map_contains(s.drop_last(), k);
        if s.last().0@ == k {
            assert(s[s.len() - 1].0@ == k);
        } else if cache_map(s).contains_key(k) {
            let i = choose|i: int| 0 <= i < s.drop_last().len() && s.drop_last()[i].0@ == k;
            assert(s[i].0@ == k);
        } else if exists|i: int| 0 <= i < s.len() && s[i].0@ == k {
            let i = choose|i: int| 0 <= i < s.len() && s[i].0@ == k;
            assert(s.drop_last()[i].0@ == k);
        }
    }
}

/// With unique keys, the map sends each entry's key to that entry's value.
proof fn lemma_cache_map_at(s: Seq<(String, DnsCacheEntry)>, i: int)
    requires
        unique_keys(s),
        0 <= i < s.len(),
    ensures
        cache_map(s).contains_key(s[i].0@),
        cache_map(s)[s[i].0@] == entry_value(s[i].1),
    decreases s.len(),
{
    if i == s.len() - 1 {
    } else {
        assert(s.drop_last()[i] == s[i]);
        lemma_cache_map_at(s.drop_last(), i);
        assert(s.last().0@ != s[i].0@);
    }
}

/// Removing the sole entry with a key removes that key from the map.
proof fn lemma_cache_map_remove(s: Seq<(String, DnsCacheEntry)>, i: int)
    requires
        unique_keys(s),
        0 <= i < s.len(),
    ensures
        cache_map(s.remove(i)) =~= cache_map(s).remove(s[i].0@),
        unique_keys(s.remove(i)),
    decreases s.len(),
{
    assert forall|a: int, b: int| 0 <= a < b < s.remove(i).len() implies s.remove(i)[a].0@
        != s.remove(i)[b].0@ by {
        let a0 = if a < i { a } else { a + 1 };
        let b0 = if b < i { b } else { b + 1 };
        assert(s.remove(i)[a] == s[a0] && s.remove(i)[b] == s[b0]);
    }
    if i == s.len() - 1 {
        assert(s.remove(i) =~= s.drop_last());
        lemma_cache_map_contains(s.drop_last(), s[i].0@);
        assert(!cache_map(s.drop_last()).contains_key(s[i].0@));
        assert(cache_map(s.drop_last()) =~= cache_map(s).remove(s[i].0@));
    } else {
        lemma_cache_map_remove(s.drop_last(), i);
        assert(s.remove(i).drop_last() =~= s.drop_last().remove(i));
        assert(s.remove(i).last() == s.last());
        assert(s.drop_last()[i] == s[i]);
        assert(cache_map(s.remove(i)) == cache_map(s.drop_last().remove(i)).insert(
            s.last().0@,
            entry_value(s.last().1),
        ));
        assert(s.last().0@ != s[i].0@);
        assert(cache_map(s.drop_last()).remove(s[i].0@).insert(s.last().0@, entry_value(s.last().1))
            =~= cache_map(s.drop_last()).insert(s.last().0@, entry_value(s.last().1)).remove(
            s[i].0@,
        ));
    }
}

/// The read-through cache of `(domain, record type)` keys to TTL-bounded
/// record sets. Entries leave only by being overwritten or by an explicit
/// clear; they are never refreshed early.
pub struct DnsCache {
    entries: Vec<(String, DnsCacheEntry)>,
}

impl View for DnsCache {
    type V = SpecDnsCache;

    closed spec fn view(&self) -> SpecDnsCache {
        cache_map(self.entries@)
    }
}

impl DnsCache {
    /// The cache's structural invariant: one entry per key.
    pub closed spec fn wf(&self) -> bool {
        unique_keys(self.entries@)
    }

    /// An empty cache.
    pub fn new() -> (r: DnsCache)
        ensures
            r.wf(),
            r@ == Map::<Seq<char>, (Seq<SpecDnsRecord>, u64)>::empty(),
    {
        DnsCache { entries: Vec::new() }
    }

    /// The index of the entry with this key, if any.
    fn find(&self, key: &String) -> (r: Option<usize>)
        requires
            self.wf(),
        ensures
            match r {
                Some(i) => i < self.entries@.len() && self.entries@[i as int].0@ == key@,
                None => !self@.contains_key(key@),
            },
    {
        let mut i: usize = 0;
        while i < self.entries.len()
            invariant
                i <= self.entries@.len(),
                forall|j: int| 0 <= j < i ==> self.entries@[j].0@ != key@,
            decreases self.entries@.len() - i,
        {
            if self.entries[i].0.eq(key) {
                return Some(i);
            }
            i = i + 1;
        }
        proof {
            lemma_cache_map_contains(self.entries@, key@);
        }
        None
    }

    /// The live record set under a key: present and not yet expired.
    pub open spec fn spec_lookup(cache: SpecDnsCache, key: Seq<char>, now: u64) -> Option<
        Seq<SpecDnsRecord>,
    > {
        if cache.contains_key(key) && now < cache[key].1 {
            Some(cache[key].0)
        } else {
            None
        }
    }

    /// Look a key up; only an entry that has not expired answers.
    pub fn lookup(&self, key: &String, now: u64) -> (r: Option<Vec<DnsRecord>>)
        requires
            self.wf(),
        ensures
            match Self::spec_lookup(self@, key@, now) {
                Some(recs) => r is Some && records_view(r->Some_0@) == recs,
                None => r is None,
            },
    {
        match self.find(key) {
            None => None,
            Some(i) => {
                proof {
                    lemma_cache_map_at(self.entries@, i as int);
                }
                let entry = &self.entries[i].1;
                if now < entry.expires_at {
                    Some(clone_records(&entry.records))
                } else {
                    None
                }
            },
        }
    }

    /// Store a record set under a key, replacing any entry the key had.
    pub fn insert(&mut self, key: String, records: Vec<DnsRecord>, expires_at: u64)
        requires
            old(self).wf(),
        ensures
            final(self).wf(),
            final(self)@ == old(self)@.insert(key@, (records_view(records@), expires_at)),
    {
        let ghost key_view = key@;
        match self.find(&key) {
            Some(i) => {
                proof {
                    lemma_cache_map_remove(self.entries@, i as int);
                    lemma_cache_map_contains(self.entries@.remove(i as int), key_view);
                }
                self.entries.remove(i);
            },
            None => {},
        }
        proof {
            lemma_cache_map_contains(self.entries@, key_view);
            assert(!cache_map(self.entries@).contains_key(key_view));
        }
        let ghost before = self.entries@;
        self.entries.push((key, DnsCacheEntry { records, expires_at }));
        proof {
            assert(self.entries@.drop_last() =~= before);
            assert forall|a: int, b: int|
                0 <= a < b < self.entries@.len() implies self.entries@[a].0@
                != self.entries@[b].0@ by {
                if b == self.entries@.len() - 1 {
                    assert(before[a].0@ != key_view) by {
                        if before[a].0@ == key_view {
                            assert(exists|i: int| 0 <= i < before.len() && before[i].0@ == key_view);
                        }
                    }
                }
            }
            assert(final(self)@ =~= old(self)@.insert(key_view, (records_view(records@), expires_at)));
        }
    }

    /// Drop every entry.
    pub fn clear(&mut self)
        ensures
            final(self).wf(),
            final(self)@ == Map::<Seq<char>, (Seq<SpecDnsRecord>, u64)>::empty(),
    {
        self.entries = Vec::new();
    }
}

/// A field-by-field copy of a record payload.
fn clone_data(d: &DnsRecordData) -> (c: DnsRecordData)
    ensures
        c@ == d@,
{
    match d {
        DnsRecordData::A(ip) => DnsRecordData::A(*ip),
        DnsRecordData::AAAA(ip) => DnsRecordData::AAAA(*ip),
        DnsRecordData::CNAME(n) => DnsRecordData::CNAME(n.clone()),
        DnsRecordData::NS(n) => DnsRecordData::NS(n.clone()),
        DnsRecordData::MX { preference, exchange } => DnsRecordData::MX {
            preference: *preference,
            exchange: exchange.clone(),
        },
    }
}

/// A field-by-field copy of a record.
pub fn clone_record(r: &DnsRecord) -> (c: DnsRecord)
    ensures
        c@ == r@,
{
    DnsRecord {
        name: r.name.clone(),
        record_type: r.record_type,
        ttl: r.ttl,
        data: clone_data(&r.data),
    }
}

/// The records of a given type, in order.
pub open spec fn spec_filter_type(rs: Seq<SpecDnsRecord>, t: DnsRecordType) -> Seq<SpecDnsRecord>
    decreases rs.len(),
{
    if rs.len() == 0 {
        seq![]
    } else {
        (if rs[0].record_type == t {
            seq![rs[0]]
        } else {
            seq![]
        }) + spec_filter_type(rs.drop_first(), t)
    }
}

/// The smallest time to live among the records, or 300 seconds of none.
pub open spec fn spec_min_ttl(rs: Seq<SpecDnsRecord>) -> u32
    decreases rs.len(),
{
    if rs.len() == 0 {
        300
    } else if rs.len() == 1 {
        rs[0].ttl
    } else if rs[0].ttl < spec_min_ttl(rs.drop_first()) {
        rs[0].ttl
    } else {
        spec_min_ttl(rs.drop_first())
    }
}

/// When a record set cached at `now` expires: `now` plus the smallest
/// time to live in milliseconds, saturating at the top of the clock.
pub open spec fn spec_expiry(now: u64, ttl: u32) -> u64 {
    if now + (ttl as int) * 1000 > u64::MAX {
        u64::MAX
    } else {
        (now + (ttl as int) * 1000) as u64
    }
}

/// A copy of a record list with the same values.
pub fn clone_records(rs: &Vec<DnsRecord>) -> (c: Vec<DnsRecord>)
    ensures
        records_view(c@) == records_view(rs@),
{
    let mut out: Vec<DnsRecord> = Vec::new();
    let mut i: usize = 0;
    while i < rs.len()
        invariant
            i <= rs@.len(),
            records_view(out@) == records_view(rs@.subrange(0, i as int)),
        decreases rs@.len() - i,
    {
        let c = clone_record(&rs[i]);
        let ghost prev = out@;
        let ghost cv = c@;
        out.push(c);
        proof {
            assert(records_view(out@) =~= records_view(prev).push(cv));
            assert(records_view(rs@.subrange(0, i + 1)) =~= records_view(
                rs@.subrange(0, i as int),
            ).push(rs@[i as int]@));
        }
        i = i + 1;
    }
    proof {
        assert(rs@.subrange(0, rs@.len() as int) =~= rs@);
    }
    out
}

/// The smallest time to live among the records from `i` on.
fn min_ttl_from(rs: &Vec<DnsRecord>, i: usize) -> (m: u32)
    requires
        i < rs@.len(),
    ensures
        m == spec_min_ttl(records_view(rs@).subrange(i as int, rs@.len() as int)),
    decreases rs@.len() - i,
{
    let ghost views = records_view(rs@);
    let ghost sub = views.subrange(i as int, rs@.len() as int);
    proof {
        assert(sub[0] == views[i as int]);
        assert(views[i as int] == rs@[i as int]@);
    }
    let n = rs.len();
    let t = rs[i].ttl;
    if i + 1 == n {
        proof {
            assert(sub.len() == 1);
        }
        t
    } else {
        let rest = min_ttl_from(rs, i + 1);
        proof {
            assert(sub.drop_first() =~= views.subrange(i as int + 1, rs@.len() as int));
        }
        if t < rest {
            t
        } else {
            rest
        }
    }
}

/// When a record set cached at `now` stops being valid.
fn expiry_at(now: u64, ttl: u32) -> (r: u64)
    ensures
        r == spec_expiry(now, ttl),
{
    let delta = (ttl as u64) * 1000;
    if now > u64::MAX - delta {
        u64::MAX
    } else {
        now + delta
    }
}

/// The resolver's own state: the cache. The socket, the configured server
/// address and the read timeout live with the caller that does the
/// sending; a query is served here from the cache or handed out as an
/// encoded datagram, and the reply bytes come back through
/// `complete_query`.
pub struct DnsResolver {
    cache: DnsCache,
}

impl View for DnsResolver {
    type V = SpecDnsCache;

    closed spec fn view(&self) -> SpecDnsCache {
        self.cache@
    }
}

impl DnsResolver {
    /// The resolver's structural invariant.
    pub closed spec fn wf(&self) -> bool {
        self.cache.wf()
    }

    /// A resolver with an empty cache.
    pub fn new() -> (r: DnsResolver)
        ensures
            r.wf(),
            r@ == Map::<Seq<char>, (Seq<SpecDnsRecord>, u64)>::empty(),
    {
        DnsResolver { cache: DnsCache::new() }
    }

    /// The cached answer for a domain and type, if one is live at `now`.
    /// A hit means no datagram needs to be sent.
    pub fn cached_lookup(&self, domain: &str, record_type: DnsRecordType, now: u64) -> (r: Option<
        Vec<DnsRecord>,
    >)
        requires
            self.wf(),
        ensures
            match DnsCache::spec_lookup(self@, spec_cache_key(domain@, record_type), now) {
                Some(recs) => r is Some && records_view(r->Some_0@) == recs,
                None => r is None,
            },
    {
        let key = cache_key(domain, record_type);
        self.cache.lookup(&key, now)
    }

    /// The datagram to send for a cache miss, under a fresh transaction
    /// id.
    pub fn create_query(&self, domain: &str, record_type: DnsRecordType) -> (r: Vec<u8>)
        requires
            labels_fit(domain.spec_bytes()),
        ensures
            exists|tid: u16| r@ == spec_encode_query(domain.spec_bytes(), record_type, tid),
    {
        let tid = rand::random::<u16>();
        let q = encode_query(domain, record_type, tid);
        proof {
            assert(q@ == spec_encode_query(domain.spec_bytes(), record_type, tid));
        }
        q
    }

    /// Take in the reply datagram of a query for `domain` and
    /// `record_type`. A reply that does not decode fails with
    /// `ProtocolError`; a non-zero response code fails with `ServerError`
    /// carrying that code; a decoded reply whose answers hold no record of
    /// the requested type fails with `NotFound`. Exactly otherwise the
    /// matching answers are returned, and cached under the key until `now`
    /// plus the smallest time to live among them. On every failure the
    /// cache is untouched.
    pub fn complete_query(
        &mut self,
        domain: &str,
        record_type: DnsRecordType,
        now: u64,
        reply: &[u8],
    ) -> (r: Result<Vec<DnsRecord>, DnsError>)
        requires
            old(self).wf(),
        ensures
            final(self).wf(),
            match spec_parse_response(reply@) {
                None => r == Err::<Vec<DnsRecord>, DnsError>(DnsError::ProtocolError) && final(self)@
                    == old(self)@,
                Some(m) => {
                    let recs = spec_filter_type(m.answers, record_type);
                    if m.rcode != 0 {
                        r == Err::<Vec<DnsRecord>, DnsError>(DnsError::ServerError(m.rcode))
                            && final(self)@ == old(self)@
                    } else if recs.len() == 0 {
                        r == Err::<Vec<DnsRecord>, DnsError>(DnsError::NotFound) && final(self)@
                            == old(self)@
                    } else {
                        &&& r is Ok
                        &&& records_view(r->Ok_0@) == recs
                        &&& final(self)@ == old(self)@.insert(
                            spec_cache_key(domain@, record_type),
                            (recs, spec_expiry(now, spec_min_ttl(recs))),
                        )
                    }
                },
            },
    {
        let response = match parse_response(reply) {
            Ok(m) => m,
            Err(e) => {
                return Err(e);
            },
        };
        if response.rcode != 0 {
            return Err(DnsError::ServerError(response.rcode));
        }
        let ghost answers = records_view(response.answers@);
        let mut matching: Vec<DnsRecord> = Vec::new();
        proof {
            assert(records_view(matching@) =~= Seq::<SpecDnsRecord>::empty());
            assert(answers.subrange(0, answers.len() as int) =~= answers);
            assert(Seq::<SpecDnsRecord>::empty() + spec_filter_type(answers, record_type)
                =~= spec_filter_type(answers, record_type));
        }
        let mut i: usize = 0;
        while i < response.answers.len()
            invariant
                i <= response.answers@.len(),
                answers == records_view(response.answers@),
                spec_filter_type(answers, record_type) == records_view(matching@)
                    + spec_filter_type(
                    answers.subrange(i as int, answers.len() as int),
                    record_type,
                ),
            decreases response.answers@.len() - i,
        {
            let ghost sub = answers.subrange(i as int, answers.len() as int);
            proof {
                assert(sub[0] == answers[i as int]);
                assert(answers[i as int] == response.answers@[i as int]@);
                assert(sub.drop_first() =~= answers.subrange(i as int + 1, answers.len() as int));
            }
            let rec = &response.answers[i];
            if record_type_eq(rec.record_type, record_type) {
                let c = clone_record(rec);
                proof {
                    assert(records_view(matching@.push(c)) =~= records_view(matching@) + seq![
                        c@,
                    ]);
                    assert(records_view(matching@) + seq![c@] + spec_filter_type(
                        answers.subrange(i as int + 1, answers.len() as int),
                        record_type,
                    ) =~= records_view(matching@) + (seq![c@] + spec_filter_type(
                        answers.subrange(i as int + 1, answers.len() as int),
                        record_type,
                    )));
                }
                matching.push(c);
            }
            i = i + 1;
        }
        proof {
            assert(answers.subrange(answers.len() as int, answers.len() as int)
                =~= Seq::<SpecDnsRecord>::empty());
            assert(records_view(matching@) + Seq::<SpecDnsRecord>::empty()
                =~= records_view(matching@));
        }
        if matching.len() == 0 {
            proof {
                assert(records_view(matching@) =~= Seq::<SpecDnsRecord>::empty());
                assert(spec_filter_type(answers, record_type).len() == 0);
            }
            return Err(DnsError::NotFound);
        }
        let min_ttl = min_ttl_from(&matching, 0);
        proof {
            assert(records_view(matching@).subrange(0, matching@.len() as int) =~= records_view(
                matching@,
            ));
        }
        let expires_at = expiry_at(now, min_ttl);
        let key = cache_key(domain, record_type);
        let stored = clone_records(&matching);
        self.cache.insert(key, stored, expires_at);
        Ok(matching)
    }

    /// Drop every cached entry unconditionally.
    pub fn clear_cache(&mut self)
        ensures
            final(self).wf(),
            final(self)@ == Map::<Seq<char>, (Seq<SpecDnsRecord>, u64)>::empty(),
    {
        self.cache.clear();
    }
}

/// Whether two record types are the same.
fn record_type_eq(a: DnsRecordType, b: DnsRecordType) -> (r: bool)
    ensures
        r == (a == b),
{
    a == b
}

/// The IPv4 address in the first record of an A answer, if any.
pub open spec fn spec_a_address(rs: Seq<SpecDnsRecord>) -> Option<Seq<u8>> {
    if rs.len() > 0 && rs[0].data is A {
        Some(rs[0].data->A_0)
    } else {
        None
    }
}

/// The IPv6 address in the first record of an AAAA answer, if any.
pub open spec fn spec_aaaa_address(rs: Seq<SpecDnsRecord>) -> Option<Seq<u16>> {
    if rs.len() > 0 && rs[0].data is AAAA {
        Some(rs[0].data->AAAA_0)
    } else {
        None
    }
}

/// The address-selection rule behind `resolve_ip`: the IPv4 address of
/// the A attempt whenever it yielded one — IPv4 is preferred whenever
/// both families resolve — else the IPv6 address of the AAAA attempt,
/// else `NotFound`. The caller makes the A attempt first and the AAAA
/// attempt only on its failure.
pub fn select_resolved_ip(
    a_records: &Option<Vec<DnsRecord>>,
    aaaa_records: &Option<Vec<DnsRecord>>,
) -> (r: Result<IpAddress, DnsError>)
    ensures
        ({
            let a = match a_records {
                Some(v) => spec_a_address(records_view(v@)),
                None => None,
            };
            let b = match aaaa_records {
                Some(v) => spec_aaaa_address(records_view(v@)),
                None => None,
            };
            if a is Some {
                &&& r is Ok
                &&& r->Ok_0 is V4
                &&& r->Ok_0->V4_0.octets@ == a->Some_0
            } else if b is Some {
                &&& r is Ok
                &&& r->Ok_0 is V6
                &&& r->Ok_0->V6_0.groups@ == b->Some_0
            } else {
                r == Err::<IpAddress, DnsError>(DnsError::NotFound)
            }
        }),
{
    match a_records {
        Some(v) => {
            if v.len() > 0 {
                proof {
                    assert(records_view(v@)[0] == v@[0]@);
                }
                if let DnsRecordData::A(ip) = &v[0].data {
                    return Ok(IpAddress::V4(*ip));
                }
            }
        },
        None => {},
    }
    match aaaa_records {
        Some(v) => {
            if v.len() > 0 {
                proof {
                    assert(records_view(v@)[0] == v@[0]@);
                }
                if let DnsRecordData::AAAA(ip) = &v[0].data {
                    return Ok(IpAddress::V6(*ip));
                }
            }
        },
        None => {},
    }
    Err(DnsError::NotFound)
}

/// Two queries for the same domain and type within the TTL window issue
/// exactly one wire round trip: once a completed query has stored its
/// records, a lookup before the stored expiry is answered from the cache,
/// so no second datagram is sent; a lookup at or past the expiry misses,
/// and the completion it forces overwrites the entry, refreshing the
/// stored expiry.
pub proof fn lemma_repeat_query_hits_cache(
    cache: SpecDnsCache,
    key: Seq<char>,
    recs: Seq<SpecDnsRecord>,
    expiry: u64,
    now: u64,
)
    ensures
        now < expiry ==> DnsCache::spec_lookup(cache.insert(key, (recs, expiry)), key, now)
            == Some(recs),
        now >= expiry ==> DnsCache::spec_lookup(cache.insert(key, (recs, expiry)), key, now)
            is None,
{
}

} // verus!
