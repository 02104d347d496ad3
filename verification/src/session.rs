//! Session identity and state: ids, metadata, the compressible state
//! record, and the expiry and idleness rules its manager applies.

use vstd::prelude::*;
use vstd::string::StringSliceAdditionalSpecFns;
use vstd::utf8::encode_utf8;
use crate::clock::now_millis;
use crate::connection_pool::spec_elapsed;
use crate::deterministic::{DeterministicControlParams, spec_sat_add};
use crate::dom::DomSnapshot;
use crate::text::{push_dec_chars, push_hex_chars, spec_dec_chars, spec_hex_chars,
    string_from_chars};

verus! {

/// A session's identity: an opaque string, compared exactly.
#[derive(Debug, Clone, Eq, PartialEq, Hash)]
pub struct SessionId(String);

impl View for SessionId {
    type V = Seq<char>;

    closed spec fn view(&self) -> Seq<char> {
        self.0@
    }
}

impl SessionId {
    /// An id from a chosen string.
    pub fn new(id: &str) -> (r: SessionId)
        ensures
            r@ == id@,
    {
        SessionId(id.to_owned())
    }

    /// A fresh random id: the clock reading in decimal, a dash, and a
    /// random 64-bit value in hexadecimal.
    pub fn generate() -> (r: SessionId)
        ensures
            exists|t: u64, x: u64|
                r@ == spec_dec_chars(t as nat) + seq!['-'] + spec_hex_chars(x as nat),
    {
        let timestamp = now_millis();
        let random = rand::random::<u64>();
        let mut cs: Vec<char> = Vec::new();
        push_dec_chars(&mut cs, timestamp);
        cs.push('-');
        push_hex_chars(&mut cs, random);
        proof {
            assert(cs@ =~= spec_dec_chars(timestamp as nat) + seq!['-'] + spec_hex_chars(
                random as nat,
            ));
        }
        SessionId(string_from_chars(cs))
    }

    /// The id's text.
    pub fn as_str(&self) -> (r: &str)
        ensures
            r@ == self@,
    {
        self.0.as_str()
    }
}

/// How strongly a session's state is compressed.
#[derive(Debug, Clone, Copy, PartialEq, Eq, Structural)]
pub enum CompressionLevel {
    Off,
    Light,
    Medium,
    High,
}

/// A resource sessions share through a pool.
#[derive(Debug, Clone)]
pub enum SharedResource {
    HttpConnection,
    TlsSession,
    DnsCache,
    Other(String),
}

/// A session's bookkeeping: times in milliseconds, a timeout in seconds,
/// a request counter, liveness, and the compression level in force.
#[derive(Debug, Clone, Copy, PartialEq, Eq, Structural)]
pub struct SessionMeta {
    pub created_at: u64,
    pub last_accessed: u64,
    pub timeout: u32,
    pub request_count: u32,
    pub is_active: bool,
    pub compression_level: CompressionLevel,
}

impl Default for SessionMeta {
    /// Fresh bookkeeping: created now, a one-hour timeout, active, medium
    /// compression.
    fn default() -> (r: SessionMeta)
        ensures
            r.created_at == r.last_accessed,
            r.timeout == 3600,
            r.request_count == 0,
            r.is_active,
            r.compression_level == CompressionLevel::Medium,
    {
        let now = now_millis();
        SessionMeta {
            created_at: now,
            last_accessed: now,
            timeout: 3600,
            request_count: 0,
            is_active: true,
            compression_level: CompressionLevel::Medium,
        }
    }
}

/// When a session stops being valid: its last access plus its timeout,
/// saturating at the top of the clock.
pub open spec fn spec_session_deadline(m: SessionMeta) -> u64 {
    spec_sat_add(m.last_accessed, (m.timeout * 1000) as u64)
}

/// Whether a session has outlived its timeout at a clock reading.
pub open spec fn spec_is_expired_at(m: SessionMeta, now: u64) -> bool {
    now > spec_session_deadline(m)
}

/// A string's byte length as the machine counts it.
pub open spec fn spec_str_size(s: String) -> int {
    (encode_utf8(s@).len() as usize) as int
}

/// The bytes of the key and value strings of a pair list.
pub open spec fn spec_pairs_size(ps: Seq<(String, String)>) -> int
    decreases ps.len(),
{
    if ps.len() == 0 {
        0
    } else {
        spec_pairs_size(ps.drop_last()) + spec_str_size(ps.last().0) + spec_str_size(
            ps.last().1,
        )
    }
}

/// A size capped at what the machine can count.
pub open spec fn spec_capped_size(n: int) -> int {
    if n > usize::MAX {
        usize::MAX as int
    } else {
        n
    }
}

/// A session's state: bookkeeping, deterministic-run parameters, the
/// current location, headers and cookies in insertion order, an optional
/// snapshot of the page, and the compressed form once one is made.
#[derive(Debug)]
pub struct SessionState {
    pub meta: SessionMeta,
    pub deterministic_params: Option<DeterministicControlParams>,
    pub current_url: Option<String>,
    pub headers: Vec<(String, String)>,
    pub cookies: Vec<(String, String)>,
    pub dom_snapshot: Option<DomSnapshot>,
    pub compressed_data: Option<Vec<u8>>,
}

/// The estimated bytes a state occupies: a fixed share for the
/// bookkeeping, a fixed share for run parameters, and the data it holds.
pub open spec fn spec_state_size(s: SessionState) -> int {
    26 + (if s.deterministic_params is Some {
        32int
    } else {
        0int
    }) + (match s.current_url {
        Some(u) => spec_str_size(u),
        None => 0int,
    }) + spec_pairs_size(s.headers@) + spec_pairs_size(s.cookies@) + (match s.dom_snapshot {
        Some(sn) => sn.size_in_bytes as int,
        None => 0int,
    }) + (match s.compressed_data {
        Some(d) => d@.len() as int,
        None => 0int,
    })
}

/// `a + b` over machine sizes, stopping at the top of the range.
fn sat_add_usize(a: usize, b: usize) -> (r: usize)
    ensures
        r == spec_capped_size(a + b),
{
    if a > usize::MAX - b {
        usize::MAX
    } else {
        a + b
    }
}

impl Default for SessionState {
    /// A fresh state: fresh bookkeeping and nothing held.
    fn default() -> (r: SessionState)
        ensures
            r.meta.created_at == r.meta.last_accessed,
            r.meta.timeout == 3600,
            r.meta.request_count == 0,
            r.meta.is_active,
            r.meta.compression_level == CompressionLevel::Medium,
            r.deterministic_params is None,
            r.current_url is None,
            r.headers@.len() == 0,
            r.cookies@.len() == 0,
            r.dom_snapshot is None,
            r.compressed_data is None,
    {
        SessionState {
            meta: SessionMeta::default(),
            deterministic_params: None,
            current_url: None,
            headers: Vec::new(),
            cookies: Vec::new(),
            dom_snapshot: None,
            compressed_data: None,
        }
    }
}

impl SessionState {
    /// A fresh state.
    pub fn new() -> (r: SessionState)
        ensures
            r.meta.created_at == r.meta.last_accessed,
            r.meta.timeout == 3600,
            r.meta.request_count == 0,
            r.meta.is_active,
            r.meta.compression_level == CompressionLevel::Medium,
            r.deterministic_params is None,
            r.current_url is None,
            r.headers@.len() == 0,
            r.cookies@.len() == 0,
            r.dom_snapshot is None,
            r.compressed_data is None,
    {
        SessionState::default()
    }

    /// Compress the state: a state not yet compressed gets an empty
    /// compressed record, and under the high level gives its snapshot up;
    /// a state already compressed is left alone.
    pub fn compress(&mut self)
        ensures
            final(self).meta == old(self).meta,
            final(self).deterministic_params == old(self).deterministic_params,
            final(self).current_url == old(self).current_url,
            final(self).headers == old(self).headers,
            final(self).cookies == old(self).cookies,
            old(self).compressed_data is Some ==> final(self).compressed_data == old(
                self,
            ).compressed_data && final(self).dom_snapshot == old(self).dom_snapshot,
            old(self).compressed_data is None ==> (final(self).compressed_data matches Some(d)
                && d@.len() == 0) && (if old(self).meta.compression_level
                == CompressionLevel::High {
                final(self).dom_snapshot is None
            } else {
                final(self).dom_snapshot == old(self).dom_snapshot
            }),
    {
        if self.compressed_data.is_none() {
            self.compressed_data = Some(Vec::new());
            if matches!(self.meta.compression_level, CompressionLevel::High) {
                self.dom_snapshot = None;
            }
        }
    }

    /// Throw the compressed record away.
    pub fn decompress(&mut self)
        ensures
            final(self).meta == old(self).meta,
            final(self).deterministic_params == old(self).deterministic_params,
            final(self).current_url == old(self).current_url,
            final(self).headers == old(self).headers,
            final(self).cookies == old(self).cookies,
            final(self).dom_snapshot == old(self).dom_snapshot,
            final(self).compressed_data is None,
    {
        self.compressed_data = None;
    }

    /// Whether the session has outlived its timeout at a given clock
    /// reading.
    pub fn is_expired_at(&self, now: u64) -> (r: bool)
        ensures
            r == spec_is_expired_at(self.meta, now),
    {
        let deadline = if self.meta.last_accessed > u64::MAX - (self.meta.timeout as u64) * 1000 {
            u64::MAX
        } else {
            self.meta.last_accessed + (self.meta.timeout as u64) * 1000
        };
        now > deadline
    }

    /// Whether the session has outlived its timeout at the clock's
    /// current reading, whatever that is.
    pub fn is_expired(&self) -> (r: bool)
        ensures
            exists|now: u64| r == #[trigger] spec_is_expired_at(self.meta, now),
    {
        let now = now_millis();
        self.is_expired_at(now)
    }

    /// Whether the session has sat unused longer than a threshold at a
    /// given clock reading.
    pub fn is_idle_at(&self, now: u64, threshold_ms: u64) -> (r: bool)
        ensures
            r == (spec_elapsed(now, self.meta.last_accessed) > threshold_ms),
    {
        let elapsed = if now >= self.meta.last_accessed {
            now - self.meta.last_accessed
        } else {
            0
        };
        elapsed > threshold_ms
    }

    /// Record an access at the clock's current reading.
    pub fn touch(&mut self)
        ensures
            final(self).meta.created_at == old(self).meta.created_at,
            final(self).meta.timeout == old(self).meta.timeout,
            final(self).meta.request_count == old(self).meta.request_count,
            final(self).meta.is_active == old(self).meta.is_active,
            final(self).meta.compression_level == old(self).meta.compression_level,
            final(self).deterministic_params == old(self).deterministic_params,
            final(self).current_url == old(self).current_url,
            final(self).headers == old(self).headers,
            final(self).cookies == old(self).cookies,
            final(self).dom_snapshot == old(self).dom_snapshot,
            final(self).compressed_data == old(self).compressed_data,
    {
        self.meta.last_accessed = now_millis();
    }

    /// The estimated bytes this state occupies, capped at what the
    /// machine can count.
    pub fn estimated_size(&self) -> (r: usize)
        ensures
            r == spec_capped_size(spec_state_size(*self)),
    {
        let mut size: usize = 26;
        let ghost mut ideal: int = 26;
        if self.deterministic_params.is_some() {
            size = sat_add_usize(size, 32);
            proof {
                ideal = ideal + 32;
            }
        }
        match &self.current_url {
            Some(url) => {
                size = sat_add_usize(size, url.as_str().len());
                proof {
                    ideal = ideal + spec_str_size(*url);
                }
            },
            None => {},
        }
        let mut i: usize = 0;
        while i < self.headers.len()
            invariant
                i <= self.headers@.len(),
                size == spec_capped_size(ideal + spec_pairs_size(self.headers@.subrange(0, i as int))),
                ideal >= 0,
        decreases self.headers@.len() - i,
        {
            proof {
                assert(self.headers@.subrange(0, i + 1).drop_last() =~= self.headers@.subrange(
                    0,
                    i as int,
                ));
                assert(self.headers@.subrange(0, i + 1).last() == self.headers@[i as int]);
                lemma_pairs_size_nonneg(self.headers@.subrange(0, i as int));
            }
            let pair = &self.headers[i];
            size = sat_add_usize(size, pair.0.as_str().len());
            size = sat_add_usize(size, pair.1.as_str().len());
            i = i + 1;
        }
        proof {
            assert(self.headers@.subrange(0, self.headers@.len() as int) =~= self.headers@);
            lemma_pairs_size_nonneg(self.headers@);
            ideal = ideal + spec_pairs_size(self.headers@);
        }
        let mut j: usize = 0;
        while j < self.cookies.len()
            invariant
                j <= self.cookies@.len(),
                size == spec_capped_size(ideal + spec_pairs_size(self.cookies@.subrange(0, j as int))),
                ideal >= 0,
        decreases self.cookies@.len() - j,
        {
            proof {
                assert(self.cookies@.subrange(0, j + 1).drop_last() =~= self.cookies@.subrange(
                    0,
                    j as int,
                ));
                assert(self.cookies@.subrange(0, j + 1).last() == self.cookies@[j as int]);
                lemma_pairs_size_nonneg(self.cookies@.subrange(0, j as int));
            }
            let pair = &self.cookies[j];
            size = sat_add_usize(size, pair.0.as_str().len());
            size = sat_add_usize(size, pair.1.as_str().len());
            j = j + 1;
        }
        proof {
            assert(self.cookies@.subrange(0, self.cookies@.len() as int) =~= self.cookies@);
            lemma_pairs_size_nonneg(self.cookies@);
            ideal = ideal + spec_pairs_size(self.cookies@);
        }
        match &self.dom_snapshot {
            Some(snapshot) => {
                size = sat_add_usize(size, snapshot.size_in_bytes as usize);
                proof {
                    ideal = ideal + self.dom_snapshot->Some_0.size_in_bytes;
                }
            },
            None => {},
        }
        match &self.compressed_data {
            Some(data) => {
                size = sat_add_usize(size, data.len());
                proof {
                    ideal = ideal + self.compressed_data->Some_0@.len();
                }
            },
            None => {},
        }
        size
    }
}

/// A pair list occupies no negative space.
proof fn lemma_pairs_size_nonneg(ps: Seq<(String, String)>)
    ensures
        spec_pairs_size(ps) >= 0,
    decreases ps.len(),
{
    if ps.len() > 0 {
        lemma_pairs_size_nonneg(ps.drop_last());
    }
}

} // verus!
