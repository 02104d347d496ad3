//! The connection pool's state and rules: a keyed table of transport
//! entries, admission control sized to `max_connections`, checkout and
//! release by entry id, and eviction of idle entries past a timeout.
//!
//! The pool here is everything about a checkout except the waiting and the
//! socket work: entries name their transport stream by id, a permit is a
//! counter movement, and the caller suspends on its own semaphore, runs
//! the connect with its own timeout, and drives these transitions with the
//! outcomes. An entry is `Idle`, moves to in-use by a checkout, back to
//! idle on release, and out of the table by eviction — in-use entries are
//! never evicted, whatever their age.

use vstd::prelude::*;

verus! {

/// A logical destination: scheme, host and port, compared by exact string
/// equality with no case normalization.
#[derive(Debug, Clone, PartialEq, Eq, Hash)]
pub struct ConnectionKey {
    pub scheme: String,
    pub host: String,
    pub port: u16,
}

/// The mathematical value of a key.
pub struct SpecConnectionKey {
    pub scheme: Seq<char>,
    pub host: Seq<char>,
    pub port: u16,
}

impl View for ConnectionKey {
    type V = SpecConnectionKey;

    open spec fn view(&self) -> SpecConnectionKey {
        SpecConnectionKey { scheme: self.scheme@, host: self.host@, port: self.port }
    }
}

/// Whether two keys name the same destination.
pub fn key_eq(a: &ConnectionKey, b: &ConnectionKey) -> (r: bool)
    ensures
        r == (a@ == b@),
{
    let same = a.scheme.eq(&b.scheme) && a.host.eq(&b.host) && a.port == b.port;
    proof {
        if same {
            assert(a@ == b@);
        }
    }
    same
}

/// A field-by-field copy of a key.
pub fn clone_key(k: &ConnectionKey) -> (c: ConnectionKey)
    ensures
        c@ == k@,
{
    ConnectionKey { scheme: k.scheme.clone(), host: k.host.clone(), port: k.port }
}

/// One pooled entry: the id under which the caller keeps the transport
/// stream, its creation and last-use times in milliseconds, and whether a
/// checkout holds it. An entry is never visible to two checkouts at once:
/// only a checkout of an idle entry sets `in_use`, and only a release
/// clears it.
#[derive(Debug, Clone, Copy, PartialEq, Eq, Structural)]
pub struct ConnectionEntry {
    pub id: u64,
    pub created_at: u64,
    pub last_used: u64,
    pub in_use: bool,
}

/// The table a pool holds: per key, the entries in creation order.
pub type SpecTable = Seq<(SpecConnectionKey, Seq<ConnectionEntry>)>;

/// The values of a key's entry table.
pub open spec fn table_view(t: Seq<(ConnectionKey, Vec<ConnectionEntry>)>) -> SpecTable {
    t.map_values(|p: (ConnectionKey, Vec<ConnectionEntry>)| (p.0@, p.1@))
}

/// One where a boolean counts, zero where it does not.
pub open spec fn b2i(b: bool) -> int {
    if b {
        1
    } else {
        0
    }
}

/// How many of a key's entries a checkout holds.
pub open spec fn entries_in_use(es: Seq<ConnectionEntry>) -> int
    decreases es.len(),
{
    if es.len() == 0 {
        0
    } else {
        entries_in_use(es.drop_last()) + b2i(es.last().in_use)
    }
}

/// The sum of per-key entry counts.
pub open spec fn table_total(t: SpecTable) -> int
    decreases t.len(),
{
    if t.len() == 0 {
        0
    } else {
        table_total(t.drop_last()) + t.last().1.len()
    }
}

/// How many entries of the whole table checkouts hold.
pub open spec fn table_in_use(t: SpecTable) -> int
    decreases t.len(),
{
    if t.len() == 0 {
        0
    } else {
        table_in_use(t.drop_last()) + entries_in_use(t.last().1)
    }
}

/// The in-use count lies between zero and the entry count.
pub proof fn lemma_entries_in_use_bounds(es: Seq<ConnectionEntry>)
    ensures
        0 <= entries_in_use(es) <= es.len(),
    decreases es.len(),
{
    if es.len() > 0 {
        lemma_entries_in_use_bounds(es.drop_last());
    }
}

/// The table's in-use count lies between zero and its total.
pub proof fn lemma_table_in_use_bounds(t: SpecTable)
    ensures
        0 <= table_in_use(t) <= table_total(t),
    decreases t.len(),
{
    if t.len() > 0 {
        lemma_table_in_use_bounds(t.drop_last());
        lemma_entries_in_use_bounds(t.last().1);
    }
}

/// Replacing one entry moves the in-use count by the flags' difference.
pub proof fn lemma_entries_in_use_update(es: Seq<ConnectionEntry>, j: int, e: ConnectionEntry)
    requires
        0 <= j < es.len(),
    ensures
        entries_in_use(es.update(j, e)) == entries_in_use(es) - b2i(es[j].in_use) + b2i(e.in_use),
    decreases es.len(),
{
    if j == es.len() - 1 {
        assert(es.update(j, e).drop_last() =~= es.drop_last());
    } else {
        assert(es.update(j, e).drop_last() =~= es.drop_last().update(j, e));
        lemma_entries_in_use_update(es.drop_last(), j, e);
    }
}

/// Appending one entry moves the in-use count by its flag.
pub proof fn lemma_entries_in_use_push(es: Seq<ConnectionEntry>, e: ConnectionEntry)
    ensures
        entries_in_use(es.push(e)) == entries_in_use(es) + b2i(e.in_use),
{
    assert(es.push(e).drop_last() =~= es);
}

/// Replacing one key's list moves the total by the length difference.
pub proof fn lemma_table_total_update(t: SpecTable, i: int, p: (SpecConnectionKey, Seq<ConnectionEntry>))
    requires
        0 <= i < t.len(),
    ensures
        table_total(t.update(i, p)) == table_total(t) - t[i].1.len() + p.1.len(),
    decreases t.len(),
{
    if i == t.len() - 1 {
        assert(t.update(i, p).drop_last() =~= t.drop_last());
    } else {
        assert(t.update(i, p).drop_last() =~= t.drop_last().update(i, p));
        lemma_table_total_update(t.drop_last(), i, p);
    }
}

/// Replacing one key's list moves the in-use count by the lists'
/// difference.
pub proof fn lemma_table_in_use_update(t: SpecTable, i: int, p: (SpecConnectionKey, Seq<ConnectionEntry>))
    requires
        0 <= i < t.len(),
    ensures
        table_in_use(t.update(i, p)) == table_in_use(t) - entries_in_use(t[i].1) + entries_in_use(
            p.1,
        ),
    decreases t.len(),
{
    if i == t.len() - 1 {
        assert(t.update(i, p).drop_last() =~= t.drop_last());
    } else {
        assert(t.update(i, p).drop_last() =~= t.drop_last().update(i, p));
        lemma_table_in_use_update(t.drop_last(), i, p);
    }
}

/// Appending a key's list moves the counters by that list's counts.
pub proof fn lemma_table_push(t: SpecTable, p: (SpecConnectionKey, Seq<ConnectionEntry>))
    ensures
        table_total(t.push(p)) == table_total(t) + p.1.len(),
        table_in_use(t.push(p)) == table_in_use(t) + entries_in_use(p.1),
{
    assert(t.push(p).drop_last() =~= t);
}

/// Milliseconds since an entry was last used; zero if the clock reads
/// earlier than that.
pub open spec fn spec_elapsed(now: u64, last_used: u64) -> int {
    if now >= last_used {
        now - last_used
    } else {
        0
    }
}

/// An entry a checkout may take: not held, and not idle past the timeout.
pub open spec fn entry_available(e: ConnectionEntry, now: u64, idle_timeout: u64) -> bool {
    !e.in_use && spec_elapsed(now, e.last_used) < idle_timeout
}

/// The first index of the key in the table, or -1.
pub open spec fn spec_key_index(t: SpecTable, k: SpecConnectionKey) -> int
    decreases t.len(),
{
    if t.len() == 0 {
        -1
    } else if t[0].0 == k {
        0
    } else {
        let r = spec_key_index(t.drop_first(), k);
        if r < 0 {
            -1
        } else {
            r + 1
        }
    }
}

/// A scan that saw other keys before `i` and this key (or the end) at `i`
/// has found the key index.
pub proof fn lemma_key_index_is(t: SpecTable, k: SpecConnectionKey, i: int)
    requires
        0 <= i <= t.len(),
        forall|j: int| 0 <= j < i ==> t[j].0 != k,
        i == t.len() || t[i].0 == k,
    ensures
        spec_key_index(t, k) == if i == t.len() {
            -1int
        } else {
            i
        },
    decreases i,
{
    if t.len() > 0 && i > 0 {
        lemma_key_index_is(t.drop_first(), k, i - 1);
    }
}

/// A found key index lies in the table and names the key.
pub proof fn lemma_key_index_bounds(t: SpecTable, k: SpecConnectionKey)
    ensures
        spec_key_index(t, k) >= 0 ==> spec_key_index(t, k) < t.len() && t[spec_key_index(t, k)].0
            == k,
        spec_key_index(t, k) < 0 ==> forall|j: int| 0 <= j < t.len() ==> t[j].0 != k,
    decreases t.len(),
{
    if t.len() > 0 && t[0].0 != k {
        lemma_key_index_bounds(t.drop_first(), k);
        let r = spec_key_index(t.drop_first(), k);
        if r >= 0 {
            assert(t[r + 1] == t.drop_first()[r]);
        } else {
            assert forall|j: int| 0 <= j < t.len() implies t[j].0 != k by {
                if j > 0 {
                    assert(t[j] == t.drop_first()[j - 1]);
                }
            }
        }
    }
}

/// The first index of an available entry, or -1.
pub open spec fn spec_first_available(es: Seq<ConnectionEntry>, now: u64, idle_timeout: u64) -> int
    decreases es.len(),
{
    if es.len() == 0 {
        -1
    } else if entry_available(es[0], now, idle_timeout) {
        0
    } else {
        let r = spec_first_available(es.drop_first(), now, idle_timeout);
        if r < 0 {
            -1
        } else {
            r + 1
        }
    }
}

/// A scan that saw no available entry before `i` and one (or the end) at
/// `i` has found the first available entry.
pub proof fn lemma_first_available_is(es: Seq<ConnectionEntry>, now: u64, idle_timeout: u64, i: int)
    requires
        0 <= i <= es.len(),
        forall|j: int| 0 <= j < i ==> !entry_available(es[j], now, idle_timeout),
        i == es.len() || entry_available(es[i], now, idle_timeout),
    ensures
        spec_first_available(es, now, idle_timeout) == if i == es.len() {
            -1int
        } else {
            i
        },
    decreases i,
{
    if es.len() > 0 && i > 0 {
        lemma_first_available_is(es.drop_first(), now, idle_timeout, i - 1);
    }
}

/// A found first-available index lies in the list and is available.
pub proof fn lemma_first_available_bounds(es: Seq<ConnectionEntry>, now: u64, idle_timeout: u64)
    ensures
        spec_first_available(es, now, idle_timeout) >= 0 ==> spec_first_available(
            es,
            now,
            idle_timeout,
        ) < es.len() && entry_available(es[spec_first_available(es, now, idle_timeout)], now, idle_timeout),
        spec_first_available(es, now, idle_timeout) < 0 ==> forall|j: int|
            0 <= j < es.len() ==> !entry_available(es[j], now, idle_timeout),
    decreases es.len(),
{
    if es.len() > 0 && !entry_available(es[0], now, idle_timeout) {
        lemma_first_available_bounds(es.drop_first(), now, idle_timeout);
        let r = spec_first_available(es.drop_first(), now, idle_timeout);
        if r >= 0 {
            assert(es[r + 1] == es.drop_first()[r]);
        } else {
            assert forall|j: int| 0 <= j < es.len() implies !entry_available(
                es[j],
                now,
                idle_timeout,
            ) by {
                if j > 0 {
                    assert(es[j] == es.drop_first()[j - 1]);
                }
            }
        }
    }
}

/// The first index of the entry with an id, or -1.
pub open spec fn spec_id_index(es: Seq<ConnectionEntry>, id: u64) -> int
    decreases es.len(),
{
    if es.len() == 0 {
        -1
    } else if es[0].id == id {
        0
    } else {
        let r = spec_id_index(es.drop_first(), id);
        if r < 0 {
            -1
        } else {
            r + 1
        }
    }
}

/// A scan that saw other ids before `i` and this id (or the end) at `i`
/// has found the id's index.
pub proof fn lemma_id_index_is(es: Seq<ConnectionEntry>, id: u64, i: int)
    requires
        0 <= i <= es.len(),
        forall|j: int| 0 <= j < i ==> es[j].id != id,
        i == es.len() || es[i].id == id,
    ensures
        spec_id_index(es, id) == if i == es.len() {
            -1int
        } else {
            i
        },
    decreases i,
{
    if es.len() > 0 && i > 0 {
        lemma_id_index_is(es.drop_first(), id, i - 1);
    }
}

/// A found id index lies in the list and carries the id.
pub proof fn lemma_id_index_bounds(es: Seq<ConnectionEntry>, id: u64)
    ensures
        spec_id_index(es, id) >= 0 ==> spec_id_index(es, id) < es.len() && es[spec_id_index(
            es,
            id,
        )].id == id,
    decreases es.len(),
{
    if es.len() > 0 && es[0].id != id {
        lemma_id_index_bounds(es.drop_first(), id);
        let r = spec_id_index(es.drop_first(), id);
        if r >= 0 {
            assert(es[r + 1] == es.drop_first()[r]);
        }
    }
}

/// The mathematical state of a pool.
pub struct SpecPool {
    /// Per key, the entries in creation order.
    pub table: SpecTable,
    /// Milliseconds after which an unused entry may be evicted.
    pub idle_timeout: u64,
    /// The admission bound: how many checkouts may be outstanding at once.
    pub max_connections: usize,
    /// The pool's entry counter.
    pub total_connections: usize,
    /// Permits not handed out.
    pub available_permits: usize,
    /// Permits held by checkouts that have not yet taken or created an
    /// entry.
    pub pending_permits: usize,
    /// Entries that checkouts hold.
    pub in_use_total: usize,
    /// The id the next created entry gets.
    pub next_id: u64,
}

/// The pool's invariant. The counters match the table: the entry counter
/// is the sum of per-key entry counts, and the in-use counter counts the
/// held entries. Keys appear once, ids are spent in increasing order, and
/// admission is conserved: unspent permits, permits held by checkouts in
/// flight and held entries never sum past the bound — a guard released
/// after `close_all_connections` dropped its entry gives its permit up
/// rather than minting a new one.
pub open spec fn spec_pool_wf(p: SpecPool) -> bool {
    &&& forall|i: int, j: int| 0 <= i < j < p.table.len() ==> p.table[i].0 != p.table[j].0
    &&& forall|i: int, j: int|
        0 <= i < p.table.len() && 0 <= j < p.table[i].1.len() ==> (#[trigger] p.table[i].1[j]).id
            < p.next_id
    &&& forall|i1: int, j1: int, i2: int, j2: int|
        0 <= i1 < p.table.len() && 0 <= j1 < p.table[i1].1.len() && 0 <= i2 < p.table.len() && 0
            <= j2 < p.table[i2].1.len() && (i1, j1) != (i2, j2) ==> (#[trigger] p.table[i1].1[j1]).id
            != (#[trigger] p.table[i2].1[j2]).id
    &&& p.total_connections == table_total(p.table)
    &&& p.in_use_total == table_in_use(p.table)
    &&& p.available_permits + p.pending_permits + p.in_use_total <= p.max_connections
}

/// Concatenation splits the counters.
pub proof fn lemma_table_counts_concat(a: SpecTable, b: SpecTable)
    ensures
        table_total(a + b) == table_total(a) + table_total(b),
        table_in_use(a + b) == table_in_use(a) + table_in_use(b),
    decreases b.len(),
{
    if b.len() == 0 {
        assert(a + b =~= a);
    } else {
        assert((a + b).drop_last() =~= a + b.drop_last());
        assert((a + b).last() == b.last());
        lemma_table_counts_concat(a, b.drop_last());
    }
}

/// An in-use entry makes its list's count at least one.
pub proof fn lemma_entries_in_use_member(es: Seq<ConnectionEntry>, j: int)
    requires
        0 <= j < es.len(),
        es[j].in_use,
    ensures
        entries_in_use(es) >= 1,
    decreases es.len(),
{
    lemma_entries_in_use_bounds(es.drop_last());
    if j < es.len() - 1 {
        lemma_entries_in_use_member(es.drop_last(), j);
    }
}

/// One key's count is within the table's.
pub proof fn lemma_table_in_use_at(t: SpecTable, i: int)
    requires
        0 <= i < t.len(),
    ensures
        table_in_use(t) >= entries_in_use(t[i].1),
    decreases t.len(),
{
    lemma_entries_in_use_bounds(t.last().1);
    lemma_table_in_use_bounds(t.drop_last());
    if i < t.len() - 1 {
        lemma_table_in_use_at(t.drop_last(), i);
    }
}

/// One key's entry count is within the table's total.
pub proof fn lemma_table_total_at(t: SpecTable, i: int)
    requires
        0 <= i < t.len(),
    ensures
        table_total(t) >= t[i].1.len(),
        table_total(t) >= 0,
    decreases t.len(),
{
    if t.len() > 0 {
        lemma_table_total_nonneg(t.drop_last());
        if i < t.len() - 1 {
            lemma_table_total_at(t.drop_last(), i);
        }
    }
}

/// The total is never negative.
pub proof fn lemma_table_total_nonneg(t: SpecTable)
    ensures
        table_total(t) >= 0,
    decreases t.len(),
{
    if t.len() > 0 {
        lemma_table_total_nonneg(t.drop_last());
    }
}

/// A key's entry list in the pool's table, counted idle or in use.
fn count_in_use(es: &Vec<ConnectionEntry>) -> (c: usize)
    ensures
        c == entries_in_use(es@),
{
    let mut c: usize = 0;
    let mut i: usize = 0;
    while i < es.len()
        invariant
            i <= es@.len(),
            c == entries_in_use(es@.subrange(0, i as int)),
            c <= i,
        decreases es@.len() - i,
    {
        proof {
            assert(es@.subrange(0, i + 1).drop_last() =~= es@.subrange(0, i as int));
            assert(es@.subrange(0, i + 1).last() == es@[i as int]);
        }
        if es[i].in_use {
            c = c + 1;
        }
        i = i + 1;
    }
    proof {
        assert(es@.subrange(0, es@.len() as int) =~= es@);
    }
    c
}

/// Point-update one entry of one key's list.
fn set_entry(
    t: &mut Vec<(ConnectionKey, Vec<ConnectionEntry>)>,
    i: usize,
    j: usize,
    e: ConnectionEntry,
)
    requires
        i < old(t)@.len(),
        j < old(t)@[i as int].1@.len(),
    ensures
        table_view(final(t)@) == table_view(old(t)@).update(
            i as int,
            (old(t)@[i as int].0@, old(t)@[i as int].1@.update(j as int, e)),
        ),
{
    let slot: &mut ConnectionEntry = &mut t[i].1[j];
    *slot = e;
    proof {
        assert(final(t)@[i as int].1@ =~= old(t)@[i as int].1@.update(j as int, e));
        assert(table_view(final(t)@) =~= table_view(old(t)@).update(
            i as int,
            (old(t)@[i as int].0@, old(t)@[i as int].1@.update(j as int, e)),
        ));
    }
}

/// Append one entry to one key's list.
fn push_entry(t: &mut Vec<(ConnectionKey, Vec<ConnectionEntry>)>, i: usize, e: ConnectionEntry)
    requires
        i < old(t)@.len(),
        old(t)@[i as int].1@.len() < usize::MAX,
    ensures
        table_view(final(t)@) == table_view(old(t)@).update(
            i as int,
            (old(t)@[i as int].0@, old(t)@[i as int].1@.push(e)),
        ),
{
    let es: &mut Vec<ConnectionEntry> = &mut t[i].1;
    es.push(e);
    proof {
        assert(final(t)@[i as int].1@ =~= old(t)@[i as int].1@.push(e));
        assert(table_view(final(t)@) =~= table_view(old(t)@).update(
            i as int,
            (old(t)@[i as int].0@, old(t)@[i as int].1@.push(e)),
        ));
    }
}

/// A consistent snapshot of the pool's counters and limits.
#[derive(Debug, Clone, Copy, PartialEq, Eq, Structural)]
pub struct PoolStats {
    pub total_connections: usize,
    pub total_idle: usize,
    pub total_in_use: usize,
    pub max_connections: usize,
    pub idle_timeout: u64,
    pub connection_count: usize,
}

/// The pool. Checkout and release move entries between idle and in-use
/// under the admission bound; a sweep evicts idle entries past the
/// timeout.
pub struct ConnectionPool {
    table: Vec<(ConnectionKey, Vec<ConnectionEntry>)>,
    idle_timeout: u64,
    max_connections: usize,
    total_connections: usize,
    available_permits: usize,
    pending_permits: usize,
    in_use_total: usize,
    next_id: u64,
}

impl View for ConnectionPool {
    type V = SpecPool;

    closed spec fn view(&self) -> SpecPool {
        SpecPool {
            table: table_view(self.table@),
            idle_timeout: self.idle_timeout,
            max_connections: self.max_connections,
            total_connections: self.total_connections,
            available_permits: self.available_permits,
            pending_permits: self.pending_permits,
            in_use_total: self.in_use_total,
            next_id: self.next_id,
        }
    }
}

impl ConnectionPool {
    /// The pool's invariant.
    pub open spec fn wf(&self) -> bool {
        spec_pool_wf(self@)
    }

    /// A pool with the default limits: 100 connections and a 300-second
    /// idle timeout.
    pub fn new() -> (r: ConnectionPool)
        ensures
            r.wf(),
            r@.table.len() == 0,
            r@.max_connections == 100,
            r@.idle_timeout == 300_000,
            r@.total_connections == 0,
            r@.available_permits == 100,
            r@.pending_permits == 0,
            r@.in_use_total == 0,
    {
        Self::with_config(100, 300_000)
    }

    /// A pool with a given admission bound and idle timeout in
    /// milliseconds.
    pub fn with_config(max_connections: usize, idle_timeout: u64) -> (r: ConnectionPool)
        ensures
            r.wf(),
            r@.table.len() == 0,
            r@.max_connections == max_connections,
            r@.idle_timeout == idle_timeout,
            r@.total_connections == 0,
            r@.available_permits == max_connections,
            r@.pending_permits == 0,
            r@.in_use_total == 0,
    {
        let p = ConnectionPool {
            table: Vec::new(),
            idle_timeout,
            max_connections,
            total_connections: 0,
            available_permits: max_connections,
            pending_permits: 0,
            in_use_total: 0,
            next_id: 0,
        };
        proof {
            assert(table_view(p.table@) =~= Seq::<(SpecConnectionKey, Seq<ConnectionEntry>)>::empty());
        }
        p
    }

    /// Take one admission permit if any is free: the step behind the
    /// semaphore acquisition. A caller finding none free suspends rather
    /// than failing; here that shows as `false`.
    pub fn try_admit(&mut self) -> (ok: bool)
        requires
            old(self).wf(),
        ensures
            final(self).wf(),
            ok == (old(self)@.available_permits > 0),
            ok ==> final(self)@ == (SpecPool {
                available_permits: (old(self)@.available_permits - 1) as usize,
                pending_permits: (old(self)@.pending_permits + 1) as usize,
                ..old(self)@
            }),
            !ok ==> final(self)@ == old(self)@,
    {
        if self.available_permits > 0 {
            self.available_permits = self.available_permits - 1;
            self.pending_permits = self.pending_permits + 1;
            true
        } else {
            false
        }
    }

    /// Give a pending permit back: the path of a checkout whose
    /// resolution or connect failed, so no entry came to hold the permit.
    pub fn return_permit(&mut self)
        requires
            old(self).wf(),
            old(self)@.pending_permits > 0,
        ensures
            final(self).wf(),
            final(self)@ == (SpecPool {
                available_permits: (old(self)@.available_permits + 1) as usize,
                pending_permits: (old(self)@.pending_permits - 1) as usize,
                ..old(self)@
            }),
    {
        self.available_permits = self.available_permits + 1;
        self.pending_permits = self.pending_permits - 1;
    }

    /// The first index of the key in the table, if present.
    fn find_key(&self, key: &ConnectionKey) -> (r: Option<usize>)
        ensures
            match r {
                Some(i) => spec_key_index(self@.table, key@) == i,
                None => spec_key_index(self@.table, key@) == -1,
            },
    {
        let ghost tv = table_view(self.table@);
        let mut i: usize = 0;
        while i < self.table.len()
            invariant
                i <= self.table@.len(),
                tv == table_view(self.table@),
                forall|j: int| 0 <= j < i ==> tv[j].0 != key@,
            decreases self.table@.len() - i,
        {
            proof {
                assert(tv[i as int].0 == self.table@[i as int].0@);
            }
            if key_eq(&self.table[i].0, key) {
                proof {
                    lemma_key_index_is(tv, key@, i as int);
                }
                return Some(i);
            }
            i = i + 1;
        }
        proof {
            lemma_key_index_is(tv, key@, self.table@.len() as int);
        }
        None
    }

    /// Under the pool's state, take the first idle, non-stale entry of
    /// the key: scanning in creation order, the first entry neither held
    /// nor idle past the timeout wins — no preference for the least idle.
    /// A hit marks the entry held, refreshes `last_used`, and dedicates
    /// the caller's pending permit to it; the returned id names the
    /// stream to reuse. A miss changes nothing: the caller goes on to
    /// resolve and connect.
    pub fn checkout_idle(&mut self, key: &ConnectionKey, now: u64) -> (r: Option<u64>)
        requires
            old(self).wf(),
            old(self)@.pending_permits > 0,
        ensures
            final(self).wf(),
            ({
                let t = old(self)@.table;
                let ki = spec_key_index(t, key@);
                let j = if ki >= 0 {
                    spec_first_available(t[ki].1, now, old(self)@.idle_timeout)
                } else {
                    -1
                };
                if ki >= 0 && j >= 0 {
                    let e = t[ki].1[j];
                    &&& r == Some(e.id)
                    &&& final(self)@ == SpecPool {
                        table: t.update(
                            ki,
                            (
                                t[ki].0,
                                t[ki].1.update(
                                    j,
                                    ConnectionEntry { last_used: now, in_use: true, ..e },
                                ),
                            ),
                        ),
                        pending_permits: (old(self)@.pending_permits - 1) as usize,
                        in_use_total: (old(self)@.in_use_total + 1) as usize,
                        ..old(self)@
                    }
                } else {
                    r is None && final(self)@ == old(self)@
                }
            }),
    {
        let ghost t = self@.table;
        let ki = match self.find_key(key) {
            Some(ki) => ki,
            None => {
                return None;
            },
        };
        proof {
            lemma_key_index_bounds(t, key@);
            assert(t[ki as int].1 == self.table@[ki as int].1@);
        }
        let j = match find_available(&self.table[ki].1, now, self.idle_timeout) {
            Some(j) => j,
            None => {
                return None;
            },
        };
        proof {
            lemma_first_available_bounds(t[ki as int].1, now, self@.idle_timeout);
        }
        let e = self.table[ki].1[j];
        let marked = ConnectionEntry { id: e.id, created_at: e.created_at, last_used: now, in_use: true };
        set_entry(&mut self.table, ki, j, marked);
        proof {
            lemma_table_total_update(t, ki as int, t.update(ki as int, (t[ki as int].0, t[ki as int].1.update(j as int, marked)))[ki as int]);
            lemma_table_in_use_update(t, ki as int, (t[ki as int].0, t[ki as int].1.update(j as int, marked)));
            lemma_entries_in_use_update(t[ki as int].1, j as int, marked);
            lemma_entries_in_use_bounds(t[ki as int].1);
        }
        self.pending_permits = self.pending_permits - 1;
        self.in_use_total = self.in_use_total + 1;
        proof {
            let newt = self@.table;
            assert forall|i1: int, j1: int, i2: int, j2: int|
                0 <= i1 < newt.len() && 0 <= j1 < newt[i1].1.len() && 0 <= i2 < newt.len() && 0
                    <= j2 < newt[i2].1.len() && (i1, j1) != (i2, j2) implies (
            #[trigger] newt[i1].1[j1]).id != (#[trigger] newt[i2].1[j2]).id by {
                assert(newt[i1].1[j1].id == t[i1].1[j1].id);
                assert(newt[i2].1[j2].id == t[i2].1[j2].id);
            }
            assert forall|i1: int, j1: int|
                0 <= i1 < newt.len() && 0 <= j1 < newt[i1].1.len() implies (
            #[trigger] newt[i1].1[j1]).id < self@.next_id by {
                assert(newt[i1].1[j1].id == t[i1].1[j1].id);
            }
        }
        Some(e.id)
    }

    /// Record a fresh connection for the key: append a held entry under
    /// the next id, count it, and dedicate the caller's pending permit to
    /// it. The caller has already resolved the host and connected within
    /// its timeout; the id names the new stream on the caller's side.
    pub fn register_connection(&mut self, key: &ConnectionKey, now: u64) -> (r: u64)
        requires
            old(self).wf(),
            old(self)@.pending_permits > 0,
            old(self)@.total_connections < usize::MAX,
            old(self)@.next_id < u64::MAX,
        ensures
            final(self).wf(),
            r == old(self)@.next_id,
            ({
                let t = old(self)@.table;
                let ki = spec_key_index(t, key@);
                let e = ConnectionEntry {
                    id: old(self)@.next_id,
                    created_at: now,
                    last_used: now,
                    in_use: true,
                };
                let newt = if ki >= 0 {
                    t.update(ki, (t[ki].0, t[ki].1.push(e)))
                } else {
                    t.push((key@, seq![e]))
                };
                final(self)@ == SpecPool {
                    table: newt,
                    total_connections: (old(self)@.total_connections + 1) as usize,
                    pending_permits: (old(self)@.pending_permits - 1) as usize,
                    in_use_total: (old(self)@.in_use_total + 1) as usize,
                    next_id: (old(self)@.next_id + 1) as u64,
                    ..old(self)@
                }
            }),
    {
        let ghost t = self@.table;
        let id = self.next_id;
        let e = ConnectionEntry { id, created_at: now, last_used: now, in_use: true };
        match self.find_key(key) {
            Some(ki) => {
                proof {
                    lemma_key_index_bounds(t, key@);
                    assert(t[ki as int].1 == self.table@[ki as int].1@);
                    lemma_entries_in_use_bounds(t[ki as int].1);
                    lemma_table_in_use_at(t, ki as int);
                    lemma_table_total_at(t, ki as int);
                    lemma_table_total_update(t, ki as int, (t[ki as int].0, t[ki as int].1.push(e)));
                    lemma_table_in_use_update(t, ki as int, (t[ki as int].0, t[ki as int].1.push(e)));
                    lemma_entries_in_use_push(t[ki as int].1, e);
                }
                push_entry(&mut self.table, ki, e);
            },
            None => {
                let mut es: Vec<ConnectionEntry> = Vec::new();
                es.push(e);
                proof {
                    assert(es@ =~= seq![e]);
                    lemma_table_push(t, (key@, es@));
                    assert(entries_in_use(seq![e]) == 1) by {
                        let single = seq![e];
                        assert(single.drop_last() =~= Seq::<ConnectionEntry>::empty());
                        assert(single.last() == e);
                        assert(entries_in_use(Seq::<ConnectionEntry>::empty()) == 0);
                    }
                }
                self.table.push((clone_key(key), es));
                proof {
                    assert(table_view(self.table@) =~= t.push((key@, seq![e])));
                }
            },
        }
        self.total_connections = self.total_connections + 1;
        self.pending_permits = self.pending_permits - 1;
        self.in_use_total = self.in_use_total + 1;
        self.next_id = self.next_id + 1;
        proof {
            let newt = self@.table;
            let ki = spec_key_index(t, key@);
            lemma_key_index_bounds(t, key@);
            assert forall|a: int, b: int| 0 <= a < b < newt.len() implies newt[a].0
                != newt[b].0 by {
                if ki >= 0 {
                    assert(newt[a].0 == t[a].0 && newt[b].0 == t[b].0);
                } else {
                    if b < t.len() {
                        assert(newt[a].0 == t[a].0 && newt[b].0 == t[b].0);
                    } else {
                        assert(newt[a].0 == t[a].0 && newt[b].0 == key@);
                    }
                }
            }
            assert forall|i1: int, j1: int|
                0 <= i1 < newt.len() && 0 <= j1 < newt[i1].1.len() implies (
            #[trigger] newt[i1].1[j1]).id < self@.next_id by {
                if ki >= 0 {
                    if i1 == ki && j1 == t[ki].1.len() {
                        assert(newt[i1].1[j1] == e);
                    } else {
                        assert(newt[i1].1[j1] == t[i1].1[j1]);
                    }
                } else {
                    if i1 == t.len() {
                        assert(newt[i1].1 =~= seq![e]);
                        assert(newt[i1].1[j1] == e);
                    } else {
                        assert(newt[i1].1[j1] == t[i1].1[j1]);
                    }
                }
            }
            assert forall|i1: int, j1: int, i2: int, j2: int|
                0 <= i1 < newt.len() && 0 <= j1 < newt[i1].1.len() && 0 <= i2 < newt.len() && 0
                    <= j2 < newt[i2].1.len() && (i1, j1) != (i2, j2) implies (
            #[trigger] newt[i1].1[j1]).id != (#[trigger] newt[i2].1[j2]).id by {
                if ki >= 0 {
                    let fresh1 = i1 == ki && j1 == t[ki].1.len();
                    let fresh2 = i2 == ki && j2 == t[ki].1.len();
                    if fresh1 {
                        assert(newt[i1].1[j1] == e);
                    } else {
                        assert(newt[i1].1[j1] == t[i1].1[j1]);
                    }
                    if fresh2 {
                        assert(newt[i2].1[j2] == e);
                    } else {
                        assert(newt[i2].1[j2] == t[i2].1[j2]);
                    }
                } else {
                    let fresh1 = i1 == t.len();
                    let fresh2 = i2 == t.len();
                    if fresh1 {
                        assert(newt[i1].1 =~= seq![e]);
                        assert(newt[i1].1[j1] == e);
                    } else {
                        assert(newt[i1].1[j1] == t[i1].1[j1]);
                    }
                    if fresh2 {
                        assert(newt[i2].1 =~= seq![e]);
                        assert(newt[i2].1[j2] == e);
                    } else {
                        assert(newt[i2].1[j2] == t[i2].1[j2]);
                    }
                }
            }
        }
        id
    }

    /// Put a checked-out entry back: find the guard's own entry — by the
    /// id it carries, not by a scan for any held entry of the key — and
    /// flip exactly that one back to idle with a refreshed `last_used`,
    /// then free the admission slot. A guard whose entry is gone (the
    /// table was reset under it) or already idle frees its slot only
    /// while admission stays conserved, minting no permit past the bound.
    pub fn release(&mut self, key: &ConnectionKey, id: u64, now: u64)
        requires
            old(self).wf(),
        ensures
            final(self).wf(),
            ({
                let t = old(self)@.table;
                let ki = spec_key_index(t, key@);
                let j = if ki >= 0 {
                    spec_id_index(t[ki].1, id)
                } else {
                    -1
                };
                if ki >= 0 && j >= 0 && t[ki].1[j].in_use {
                    let e = t[ki].1[j];
                    final(self)@ == SpecPool {
                        table: t.update(
                            ki,
                            (
                                t[ki].0,
                                t[ki].1.update(
                                    j,
                                    ConnectionEntry { last_used: now, in_use: false, ..e },
                                ),
                            ),
                        ),
                        available_permits: (old(self)@.available_permits + 1) as usize,
                        in_use_total: (old(self)@.in_use_total - 1) as usize,
                        ..old(self)@
                    }
                } else {
                    final(self)@ == SpecPool {
                        available_permits: (
                        if old(self)@.available_permits + old(self)@.pending_permits + old(
                            self,
                        )@.in_use_total < old(self)@.max_connections {
                            (old(self)@.available_permits + 1) as usize
                        } else {
                            old(self)@.available_permits
                        }),
                        ..old(self)@
                    }
                }
            }),
    {
        let ghost t = self@.table;
        let found = match self.find_key(key) {
            Some(ki) => {
                proof {
                    lemma_key_index_bounds(t, key@);
                    assert(t[ki as int].1 == self.table@[ki as int].1@);
                }
                match find_by_id(&self.table[ki].1, id) {
                    Some(j) => {
                        proof {
                            lemma_id_index_bounds(t[ki as int].1, id);
                        }
                        let e = self.table[ki].1[j];
                        if e.in_use {
                            let idle = ConnectionEntry {
                                id: e.id,
                                created_at: e.created_at,
                                last_used: now,
                                in_use: false,
                            };
                            set_entry(&mut self.table, ki, j, idle);
                            proof {
                                lemma_table_total_update(
                                    t,
                                    ki as int,
                                    (t[ki as int].0, t[ki as int].1.update(j as int, idle)),
                                );
                                lemma_table_in_use_update(
                                    t,
                                    ki as int,
                                    (t[ki as int].0, t[ki as int].1.update(j as int, idle)),
                                );
                                lemma_entries_in_use_update(t[ki as int].1, j as int, idle);
                                lemma_entries_in_use_member(t[ki as int].1, j as int);
                                lemma_table_in_use_at(t, ki as int);
                            }
                            self.in_use_total = self.in_use_total - 1;
                            self.available_permits = self.available_permits + 1;
                            proof {
                                let newt = self@.table;
                                assert forall|i1: int, j1: int, i2: int, j2: int|
                                    0 <= i1 < newt.len() && 0 <= j1 < newt[i1].1.len() && 0 <= i2
                                        < newt.len() && 0 <= j2 < newt[i2].1.len() && (i1, j1) != (
                                i2, j2) implies (#[trigger] newt[i1].1[j1]).id != (
                                #[trigger] newt[i2].1[j2]).id by {
                                    assert(newt[i1].1[j1].id == t[i1].1[j1].id);
                                    assert(newt[i2].1[j2].id == t[i2].1[j2].id);
                                }
                                assert forall|i1: int, j1: int|
                                    0 <= i1 < newt.len() && 0 <= j1 < newt[i1].1.len() implies (
                                #[trigger] newt[i1].1[j1]).id < self@.next_id by {
                                    assert(newt[i1].1[j1].id == t[i1].1[j1].id);
                                }
                            }
                            true
                        } else {
                            false
                        }
                    },
                    None => false,
                }
            },
            None => false,
        };
        if !found {
            let held = (self.available_permits as u64) + (self.pending_permits as u64)
                + (self.in_use_total as u64);
            if held < (self.max_connections as u64) {
                self.available_permits = self.available_permits + 1;
            }
        }
    }

    /// Sweep the table: for every key, drop the entries no checkout holds
    /// whose idle time reached the timeout, and drop keys left empty. The
    /// counter falls by exactly the count removed; in-use entries are
    /// untouched whatever their age (`lemma_cleanup_exact` states this
    /// law). Driven by an external periodic trigger; the pool has no
    /// scheduling of its own.
    pub fn cleanup(&mut self, now: u64)
        requires
            old(self).wf(),
        ensures
            final(self).wf(),
            final(self)@.table == spec_cleanup(old(self)@.table, now, old(self)@.idle_timeout),
            final(self)@.total_connections == table_total(final(self)@.table),
            final(self)@.in_use_total == old(self)@.in_use_total,
            final(self)@.idle_timeout == old(self)@.idle_timeout,
            final(self)@.max_connections == old(self)@.max_connections,
            final(self)@.available_permits == old(self)@.available_permits,
            final(self)@.pending_permits == old(self)@.pending_permits,
            final(self)@.next_id == old(self)@.next_id,
    {
        let ghost t = self@.table;
        proof {
            lemma_cleanup_wf(t, now, self@.idle_timeout, self@.next_id);
        }
        let mut new_table: Vec<(ConnectionKey, Vec<ConnectionEntry>)> = Vec::new();
        let mut total: usize = 0;
        proof {
            assert(table_view(new_table@) =~= spec_cleanup(
                t.subrange(0, 0),
                now,
                self@.idle_timeout,
            )) by {
                assert(t.subrange(0, 0) =~= Seq::<(SpecConnectionKey, Seq<ConnectionEntry>)>::empty());
                assert(table_view(new_table@) =~= Seq::<(SpecConnectionKey, Seq<ConnectionEntry>)>::empty());
            }
        }
        let mut i: usize = 0;
        while i < self.table.len()
            invariant
                self.wf(),
                t == self@.table,
                i <= self.table@.len(),
                table_view(new_table@) == spec_cleanup(
                    t.subrange(0, i as int),
                    now,
                    self@.idle_timeout,
                ),
                total == table_total(table_view(new_table@)),
                0 <= total <= table_total(t),
            decreases self.table@.len() - i,
        {
            let ghost prefix = t.subrange(0, i as int);
            let ghost prefix1 = t.subrange(0, i + 1);
            proof {
                assert(prefix1.drop_last() =~= prefix);
                assert(prefix1.last() == t[i as int]);
                assert(t[i as int].1 == self.table@[i as int].1@);
            }
            let es: &Vec<ConnectionEntry> = &self.table[i].1;
            let mut kept: Vec<ConnectionEntry> = Vec::new();
            let mut j: usize = 0;
            proof {
                assert(kept@ =~= spec_retain(es@.subrange(0, 0), now, self@.idle_timeout)) by {
                    assert(es@.subrange(0, 0) =~= Seq::<ConnectionEntry>::empty());
                }
            }
            while j < es.len()
                invariant
                    j <= es@.len(),
                    kept@ == spec_retain(es@.subrange(0, j as int), now, self@.idle_timeout),
                    kept@.len() <= j,
                decreases es@.len() - j,
            {
                proof {
                    assert(es@.subrange(0, j + 1).drop_last() =~= es@.subrange(0, j as int));
                    assert(es@.subrange(0, j + 1).last() == es@[j as int]);
                    lemma_retain_sub(es@.subrange(0, j as int), now, self@.idle_timeout);
                }
                let e = es[j];
                let elapsed = if now >= e.last_used {
                    now - e.last_used
                } else {
                    0
                };
                if e.in_use || elapsed < self.idle_timeout {
                    kept.push(e);
                    proof {
                        assert(kept@ =~= spec_retain(
                            es@.subrange(0, j + 1),
                            now,
                            self@.idle_timeout,
                        ));
                    }
                } else {
                    proof {
                        assert(kept@ =~= spec_retain(
                            es@.subrange(0, j + 1),
                            now,
                            self@.idle_timeout,
                        ));
                    }
                }
                j = j + 1;
            }
            proof {
                assert(es@.subrange(0, es@.len() as int) =~= es@);
            }
            let ghost new_before = table_view(new_table@);
            if kept.len() > 0 {
                let k = clone_key(&self.table[i].0);
                let ghost kept_view = kept@;
                proof {
                    lemma_retain_sub(es@, now, self@.idle_timeout);
                    lemma_cleanup_wf(prefix1, now, self@.idle_timeout, self@.next_id);
                    lemma_table_push(new_before, (t[i as int].0, kept_view));
                    assert(spec_cleanup(prefix1, now, self@.idle_timeout) =~= new_before.push(
                        (t[i as int].0, kept_view),
                    ));
                    assert(t =~= prefix1 + t.subrange(i + 1, t.len() as int));
                    lemma_table_counts_concat(prefix1, t.subrange(i + 1, t.len() as int));
                    lemma_table_in_use_bounds(t.subrange(i + 1, t.len() as int));
                    lemma_table_total_nonneg(t.subrange(i + 1, t.len() as int));
                    assert(total + kept_view.len() == table_total(
                        spec_cleanup(prefix1, now, self@.idle_timeout),
                    ));
                    assert(total + kept_view.len() <= table_total(t));
                }
                total = total + kept.len();
                new_table.push((k, kept));
                proof {
                    assert(table_view(new_table@) =~= new_before.push((t[i as int].0, kept_view)));
                    assert(table_view(new_table@) =~= spec_cleanup(
                        prefix1,
                        now,
                        self@.idle_timeout,
                    ));
                }
            } else {
                proof {
                    assert(kept@ =~= Seq::<ConnectionEntry>::empty());
                    assert(table_view(new_table@) =~= spec_cleanup(
                        prefix1,
                        now,
                        self@.idle_timeout,
                    ));
                }
            }
            i = i + 1;
        }
        proof {
            assert(t.subrange(0, t.len() as int) =~= t);
            lemma_cleanup_wf(t, now, self@.idle_timeout, self@.next_id);
        }
        self.table = new_table;
        self.total_connections = total;
    }

    /// Whether any key still holds the entry with this id: what a caller
    /// keeping per-id state checks after a sweep to drop what was
    /// evicted.
    pub fn has_entry(&self, id: u64) -> (r: bool)
        ensures
            r == exists|i: int, j: int|
                0 <= i < self@.table.len() && 0 <= j < self@.table[i].1.len() && (
                #[trigger] self@.table[i].1[j]).id == id,
    {
        let ghost tv = self@.table;
        let mut i: usize = 0;
        while i < self.table.len()
            invariant
                i <= self.table@.len(),
                tv == self@.table,
                forall|a: int, b: int|
                    0 <= a < i && 0 <= b < tv[a].1.len() ==> (#[trigger] tv[a].1[b]).id != id,
            decreases self.table@.len() - i,
        {
            proof {
                assert(tv[i as int].1 == self.table@[i as int].1@);
            }
            let es = &self.table[i].1;
            let mut j: usize = 0;
            while j < es.len()
                invariant
                    j <= es@.len(),
                    es@ == self.table@[i as int].1@,
                    i < self.table@.len(),
                    tv == self@.table,
                    tv[i as int].1 == es@,
                    forall|b: int| 0 <= b < j ==> (#[trigger] tv[i as int].1[b]).id != id,
                decreases es@.len() - j,
            {
                if es[j].id == id {
                    proof {
                        assert(tv[i as int].1[j as int].id == id);
                    }
                    return true;
                }
                j = j + 1;
            }
            i = i + 1;
        }
        false
    }

    /// Drop every entry and zero the counter at once. Permits already
    /// granted to outstanding guards are not reclaimed: those guards keep
    /// writing to now-unregistered streams, and their releases find no
    /// entry here.
    pub fn close_all_connections(&mut self)
        requires
            old(self).wf(),
        ensures
            final(self).wf(),
            final(self)@ == (SpecPool {
                table: Seq::<(SpecConnectionKey, Seq<ConnectionEntry>)>::empty(),
                total_connections: 0,
                in_use_total: 0,
                ..old(self)@
            }),
    {
        self.table = Vec::new();
        self.total_connections = 0;
        self.in_use_total = 0;
        proof {
            assert(table_view(self.table@) =~= Seq::<(SpecConnectionKey, Seq<ConnectionEntry>)>::empty());
        }
    }

    /// A consistent snapshot: the entry counter — equal at every
    /// quiescent point to the sum of per-key entry counts — split into
    /// idle and in-use, with the configured limits and the key count.
    pub fn get_stats(&self) -> (r: PoolStats)
        requires
            self.wf(),
        ensures
            r.total_connections == self@.total_connections,
            r.total_connections == table_total(self@.table),
            r.total_in_use == table_in_use(self@.table),
            r.total_idle == table_total(self@.table) - table_in_use(self@.table),
            r.max_connections == self@.max_connections,
            r.idle_timeout == self@.idle_timeout,
            r.connection_count == self@.table.len(),
    {
        let ghost tv = self@.table;
        let mut in_use: usize = 0;
        let mut i: usize = 0;
        while i < self.table.len()
            invariant
                self.wf(),
                tv == self@.table,
                i <= self.table@.len(),
                in_use == table_in_use(tv.subrange(0, i as int)),
                0 <= table_in_use(tv.subrange(0, i as int)) <= table_total(tv),
            decreases self.table@.len() - i,
        {
            proof {
                assert(tv.subrange(0, i + 1).drop_last() =~= tv.subrange(0, i as int));
                assert(tv.subrange(0, i + 1).last() == tv[i as int]);
                assert(tv[i as int].1 == self.table@[i as int].1@);
                assert(tv =~= tv.subrange(0, i + 1) + tv.subrange(i + 1, tv.len() as int));
                lemma_table_counts_concat(tv.subrange(0, i + 1), tv.subrange(i + 1, tv.len() as int));
                lemma_table_in_use_bounds(tv.subrange(0, i + 1));
                lemma_table_in_use_bounds(tv.subrange(i + 1, tv.len() as int));
                lemma_table_counts_concat(tv.subrange(0, i as int), tv.subrange(i as int, tv.len() as int));
            }
            let c = count_in_use(&self.table[i].1);
            in_use = in_use + c;
            i = i + 1;
        }
        proof {
            assert(tv.subrange(0, tv.len() as int) =~= tv);
            lemma_table_in_use_bounds(tv);
        }
        PoolStats {
            total_connections: self.total_connections,
            total_idle: self.total_connections - in_use,
            total_in_use: in_use,
            max_connections: self.max_connections,
            idle_timeout: self.idle_timeout,
            connection_count: self.table.len(),
        }
    }
}

/// An entry a sweep keeps: held by a checkout — never evicted, whatever
/// its age — or not yet idle past the timeout.
pub open spec fn keep_entry(e: ConnectionEntry, now: u64, idle_timeout: u64) -> bool {
    e.in_use || spec_elapsed(now, e.last_used) < idle_timeout
}

/// The entries a sweep keeps, in order.
pub open spec fn spec_retain(es: Seq<ConnectionEntry>, now: u64, idle_timeout: u64) -> Seq<
    ConnectionEntry,
>
    decreases es.len(),
{
    if es.len() == 0 {
        seq![]
    } else {
        spec_retain(es.drop_last(), now, idle_timeout) + (
        if keep_entry(es.last(), now, idle_timeout) {
            seq![es.last()]
        } else {
            seq![]
        })
    }
}

/// The table after a sweep: per key the kept entries, keys left empty
/// dropped.
pub open spec fn spec_cleanup(t: SpecTable, now: u64, idle_timeout: u64) -> SpecTable
    decreases t.len(),
{
    if t.len() == 0 {
        seq![]
    } else {
        let kept = spec_retain(t.last().1, now, idle_timeout);
        spec_cleanup(t.drop_last(), now, idle_timeout) + (
        if kept.len() > 0 {
            seq![(t.last().0, kept)]
        } else {
            seq![]
        })
    }
}

/// What a sweep keeps of one list: only entries it may keep, each one an
/// entry of the original list, never more than were there.
pub proof fn lemma_retain_sub(es: Seq<ConnectionEntry>, now: u64, idle_timeout: u64)
    ensures
        spec_retain(es, now, idle_timeout).len() <= es.len(),
        forall|j: int|
            0 <= j < spec_retain(es, now, idle_timeout).len() ==> keep_entry(
                #[trigger] spec_retain(es, now, idle_timeout)[j],
                now,
                idle_timeout,
            ) && exists|j0: int|
                0 <= j0 < es.len() && spec_retain(es, now, idle_timeout)[j] == es[j0],
    decreases es.len(),
{
    if es.len() > 0 {
        lemma_retain_sub(es.drop_last(), now, idle_timeout);
        let kept = spec_retain(es, now, idle_timeout);
        let prev = spec_retain(es.drop_last(), now, idle_timeout);
        assert forall|j: int|
            0 <= j < kept.len() implies keep_entry(#[trigger] kept[j], now, idle_timeout) && exists|
            j0: int,
        | 0 <= j0 < es.len() && kept[j] == es[j0] by {
            if j < prev.len() {
                assert(kept[j] == prev[j]);
                let j0 = choose|j0: int| 0 <= j0 < es.drop_last().len() && prev[j] == es.drop_last()[j0];
                assert(kept[j] == es[j0]);
            } else {
                assert(kept[j] == es.last());
                assert(kept[j] == es[es.len() - 1]);
            }
        }
    }
}

/// A sweep keeps no two entries with one id if the list had no two.
pub proof fn lemma_retain_distinct(es: Seq<ConnectionEntry>, now: u64, idle_timeout: u64)
    requires
        forall|a: int, b: int|
            0 <= a < b < es.len() ==> (#[trigger] es[a]).id != (#[trigger] es[b]).id,
    ensures
        forall|a: int, b: int|
            0 <= a < b < spec_retain(es, now, idle_timeout).len() ==> (
            #[trigger] spec_retain(es, now, idle_timeout)[a]).id != (#[trigger] spec_retain(
                es,
                now,
                idle_timeout,
            )[b]).id,
    decreases es.len(),
{
    if es.len() > 0 {
        lemma_retain_distinct(es.drop_last(), now, idle_timeout);
        lemma_retain_sub(es.drop_last(), now, idle_timeout);
        let kept = spec_retain(es, now, idle_timeout);
        let prev = spec_retain(es.drop_last(), now, idle_timeout);
        assert forall|a: int, b: int|
            0 <= a < b < kept.len() implies (#[trigger] kept[a]).id != (
        #[trigger] kept[b]).id by {
            if b < prev.len() {
                assert(kept[a] == prev[a] && kept[b] == prev[b]);
            } else {
                assert(kept[a] == prev[a] && kept[b] == es.last());
                let j0 = choose|j0: int|
                    0 <= j0 < es.drop_last().len() && prev[a] == es.drop_last()[j0];
                assert(es[j0].id != es[es.len() - 1].id);
            }
        }
    }
}

/// A sweep does not change how many entries checkouts hold.
pub proof fn lemma_retain_in_use(es: Seq<ConnectionEntry>, now: u64, idle_timeout: u64)
    ensures
        entries_in_use(spec_retain(es, now, idle_timeout)) == entries_in_use(es),
    decreases es.len(),
{
    if es.len() > 0 {
        lemma_retain_in_use(es.drop_last(), now, idle_timeout);
        let prev = spec_retain(es.drop_last(), now, idle_timeout);
        if keep_entry(es.last(), now, idle_timeout) {
            assert(spec_retain(es, now, idle_timeout) =~= prev.push(es.last()));
            lemma_entries_in_use_push(prev, es.last());
        } else {
            assert(spec_retain(es, now, idle_timeout) =~= prev);
        }
    }
}

/// Every held entry survives a sweep of its list.
pub proof fn lemma_retain_keeps_in_use(es: Seq<ConnectionEntry>, now: u64, idle_timeout: u64, j: int)
    requires
        0 <= j < es.len(),
        es[j].in_use,
    ensures
        exists|j2: int|
            0 <= j2 < spec_retain(es, now, idle_timeout).len() && spec_retain(
                es,
                now,
                idle_timeout,
            )[j2] == es[j],
    decreases es.len(),
{
    let kept = spec_retain(es, now, idle_timeout);
    let prev = spec_retain(es.drop_last(), now, idle_timeout);
    if j == es.len() - 1 {
        assert(kept[prev.len() as int] == es[j]);
    } else {
        lemma_retain_keeps_in_use(es.drop_last(), now, idle_timeout, j);
        let j2 = choose|j2: int| 0 <= j2 < prev.len() && prev[j2] == es.drop_last()[j];
        assert(kept[j2] == es[j]);
    }
}

/// A sweep preserves the pool's structural facts: keys stay unique and
/// keep their provenance, ids stay distinct and below the bound, the
/// in-use count is untouched, and the total can only fall.
pub proof fn lemma_cleanup_wf(t: SpecTable, now: u64, idle_timeout: u64, id_bound: u64)
    requires
        forall|i: int, j: int| 0 <= i < j < t.len() ==> t[i].0 != t[j].0,
        forall|i: int, j: int|
            0 <= i < t.len() && 0 <= j < t[i].1.len() ==> (#[trigger] t[i].1[j]).id < id_bound,
        forall|i1: int, j1: int, i2: int, j2: int|
            0 <= i1 < t.len() && 0 <= j1 < t[i1].1.len() && 0 <= i2 < t.len() && 0 <= j2
                < t[i2].1.len() && (i1, j1) != (i2, j2) ==> (#[trigger] t[i1].1[j1]).id != (
            #[trigger] t[i2].1[j2]).id,
    ensures
        ({
            let c = spec_cleanup(t, now, idle_timeout);
            &&& forall|i: int, j: int| 0 <= i < j < c.len() ==> c[i].0 != c[j].0
            &&& forall|i: int|
                0 <= i < c.len() ==> exists|i0: int|
                    0 <= i0 < t.len() && (#[trigger] c[i]).0 == t[i0].0 && c[i].1 == spec_retain(
                        t[i0].1,
                        now,
                        idle_timeout,
                    )
            &&& forall|i: int, j: int|
                0 <= i < c.len() && 0 <= j < c[i].1.len() ==> (#[trigger] c[i].1[j]).id < id_bound
            &&& forall|i1: int, j1: int, i2: int, j2: int|
                0 <= i1 < c.len() && 0 <= j1 < c[i1].1.len() && 0 <= i2 < c.len() && 0 <= j2
                    < c[i2].1.len() && (i1, j1) != (i2, j2) ==> (#[trigger] c[i1].1[j1]).id != (
                #[trigger] c[i2].1[j2]).id
            &&& table_in_use(c) == table_in_use(t)
            &&& 0 <= table_total(c) <= table_total(t)
        }),
    decreases t.len(),
{
    let c = spec_cleanup(t, now, idle_timeout);
    if t.len() == 0 {
    } else {
        let t0 = t.drop_last();
        let c0 = spec_cleanup(t0, now, idle_timeout);
        lemma_cleanup_wf(t0, now, idle_timeout, id_bound);
        let kept = spec_retain(t.last().1, now, idle_timeout);
        lemma_retain_sub(t.last().1, now, idle_timeout);
        lemma_retain_in_use(t.last().1, now, idle_timeout);
        lemma_retain_distinct(t.last().1, now, idle_timeout);
        lemma_entries_in_use_bounds(t.last().1);
        if kept.len() > 0 {
            assert(c =~= c0.push((t.last().0, kept)));
            lemma_table_push(c0, (t.last().0, kept));
            assert forall|i: int|
                0 <= i < c.len() implies exists|i0: int|
                0 <= i0 < t.len() && (#[trigger] c[i]).0 == t[i0].0 && c[i].1 == spec_retain(
                    t[i0].1,
                    now,
                    idle_timeout,
                ) by {
                if i < c0.len() {
                    let i0 = choose|i0: int|
                        0 <= i0 < t0.len() && (#[trigger] c0[i]).0 == t0[i0].0 && c0[i].1
                            == spec_retain(t0[i0].1, now, idle_timeout);
                    assert(c[i] == c0[i] && t0[i0] == t[i0]);
                } else {
                    assert(c[i] == (t.last().0, kept));
                    assert(c[i].0 == t[t.len() - 1].0 && c[i].1 == spec_retain(
                        t[t.len() - 1].1,
                        now,
                        idle_timeout,
                    ));
                }
            }
            assert forall|i: int, j: int| 0 <= i < j < c.len() implies c[i].0 != c[j].0 by {
                if j < c0.len() {
                    assert(c[i] == c0[i] && c[j] == c0[j]);
                } else {
                    assert(c[i] == c0[i] && c[j].0 == t[t.len() - 1].0);
                    let i0 = choose|i0: int|
                        0 <= i0 < t0.len() && (#[trigger] c0[i]).0 == t0[i0].0 && c0[i].1
                            == spec_retain(t0[i0].1, now, idle_timeout);
                    assert(t[i0].0 != t[t.len() - 1].0);
                }
            }
            assert forall|i: int, j: int|
                0 <= i < c.len() && 0 <= j < c[i].1.len() implies (#[trigger] c[i].1[j]).id
                < id_bound by {
                let i0 = choose|i0: int|
                    0 <= i0 < t.len() && (#[trigger] c[i]).0 == t[i0].0 && c[i].1 == spec_retain(
                        t[i0].1,
                        now,
                        idle_timeout,
                    );
                lemma_retain_sub(t[i0].1, now, idle_timeout);
                let j0 = choose|j0: int| 0 <= j0 < t[i0].1.len() && c[i].1[j] == t[i0].1[j0];
                assert(t[i0].1[j0].id < id_bound);
            }
            assert forall|i1: int, j1: int, i2: int, j2: int|
                0 <= i1 < c.len() && 0 <= j1 < c[i1].1.len() && 0 <= i2 < c.len() && 0 <= j2
                    < c[i2].1.len() && (i1, j1) != (i2, j2) implies (#[trigger] c[i1].1[j1]).id
                != (#[trigger] c[i2].1[j2]).id by {
                if i1 == i2 {
                    let i0 = choose|i0: int|
                        0 <= i0 < t.len() && (#[trigger] c[i1]).0 == t[i0].0 && c[i1].1
                            == spec_retain(t[i0].1, now, idle_timeout);
                    lemma_retain_distinct(t[i0].1, now, idle_timeout);
                } else {
                    let i01 = choose|i0: int|
                        0 <= i0 < t.len() && (#[trigger] c[i1]).0 == t[i0].0 && c[i1].1
                            == spec_retain(t[i0].1, now, idle_timeout);
                    let i02 = choose|i0: int|
                        0 <= i0 < t.len() && (#[trigger] c[i2]).0 == t[i0].0 && c[i2].1
                            == spec_retain(t[i0].1, now, idle_timeout);
                    lemma_retain_sub(t[i01].1, now, idle_timeout);
                    lemma_retain_sub(t[i02].1, now, idle_timeout);
                    let j01 = choose|j0: int|
                        0 <= j0 < t[i01].1.len() && c[i1].1[j1] == t[i01].1[j0];
                    let j02 = choose|j0: int|
                        0 <= j0 < t[i02].1.len() && c[i2].1[j2] == t[i02].1[j0];
                    assert(i01 != i02);
                    assert(t[i01].1[j01].id != t[i02].1[j02].id);
                }
            }
        } else {
            assert(c =~= c0);
            assert(entries_in_use(t.last().1) == 0);
            assert forall|i: int|
                0 <= i < c.len() implies exists|i0: int|
                0 <= i0 < t.len() && (#[trigger] c[i]).0 == t[i0].0 && c[i].1 == spec_retain(
                    t[i0].1,
                    now,
                    idle_timeout,
                ) by {
                let i0 = choose|i0: int|
                    0 <= i0 < t0.len() && (#[trigger] c0[i]).0 == t0[i0].0 && c0[i].1
                        == spec_retain(t0[i0].1, now, idle_timeout);
                assert(c[i].0 == t[i0].0 && c[i].1 == spec_retain(t[i0].1, now, idle_timeout));
            }
        }
    }
}

/// The law of the sweep: afterwards no idle entry whose idle time reached
/// the timeout remains, and every entry a checkout holds — regardless of
/// age — survives under its key.
pub proof fn lemma_cleanup_exact(t: SpecTable, now: u64, idle_timeout: u64)
    ensures
        ({
            let c = spec_cleanup(t, now, idle_timeout);
            &&& forall|i: int, j: int|
                0 <= i < c.len() && 0 <= j < c[i].1.len() ==> keep_entry(
                    #[trigger] c[i].1[j],
                    now,
                    idle_timeout,
                )
            &&& forall|i: int, j: int|
                0 <= i < t.len() && 0 <= j < t[i].1.len() && (#[trigger] t[i].1[j]).in_use
                    ==> exists|i2: int, j2: int|
                    0 <= i2 < c.len() && 0 <= j2 < c[i2].1.len() && c[i2].0 == t[i].0
                        && c[i2].1[j2] == t[i].1[j]
        }),
    decreases t.len(),
{
    let c = spec_cleanup(t, now, idle_timeout);
    if t.len() > 0 {
        let t0 = t.drop_last();
        let c0 = spec_cleanup(t0, now, idle_timeout);
        lemma_cleanup_exact(t0, now, idle_timeout);
        let kept = spec_retain(t.last().1, now, idle_timeout);
        lemma_retain_sub(t.last().1, now, idle_timeout);
        assert forall|i: int, j: int|
            0 <= i < c.len() && 0 <= j < c[i].1.len() implies keep_entry(
            #[trigger] c[i].1[j],
            now,
            idle_timeout,
        ) by {
            if i < c0.len() {
                assert(c[i] == c0[i]);
            } else {
                assert(c[i].1 == kept);
            }
        }
        assert forall|i: int, j: int|
            0 <= i < t.len() && 0 <= j < t[i].1.len() && (#[trigger] t[i].1[j]).in_use implies exists|
            i2: int,
            j2: int,
        |
            0 <= i2 < c.len() && 0 <= j2 < c[i2].1.len() && c[i2].0 == t[i].0 && c[i2].1[j2]
                == t[i].1[j] by {
            if i == t.len() - 1 {
                lemma_retain_keeps_in_use(t.last().1, now, idle_timeout, j);
                let j2 = choose|j2: int| 0 <= j2 < kept.len() && kept[j2] == t.last().1[j];
                assert(c[c.len() - 1].0 == t[i].0 && c[c.len() - 1].1[j2] == t[i].1[j]);
            } else {
                assert(t0[i].1[j].in_use && t0[i] == t[i]);
                let (i2, j2) = choose|i2: int, j2: int|
                    0 <= i2 < c0.len() && 0 <= j2 < c0[i2].1.len() && c0[i2].0 == t0[i].0
                        && c0[i2].1[j2] == t0[i].1[j];
                assert(c[i2] == c0[i2]);
            }
        }
    }
}

/// No entry is visible to two checkouts at once: a checkout takes only an
/// entry nothing holds — the first available one is not in use — and only
/// the holding guard's release puts it back.
pub proof fn lemma_checkout_exclusive(es: Seq<ConnectionEntry>, now: u64, idle_timeout: u64)
    requires
        spec_first_available(es, now, idle_timeout) >= 0,
    ensures
        !es[spec_first_available(es, now, idle_timeout)].in_use,
{
    lemma_first_available_bounds(es, now, idle_timeout);
}

/// At every quiescent observation point the pool's counter equals the sum
/// of per-key entry counts.
pub proof fn lemma_total_is_sum(p: SpecPool)
    requires
        spec_pool_wf(p),
    ensures
        p.total_connections == table_total(p.table),
{
}

/// Admission is conserved: at most `max_connections` entries are checked
/// out at once, so checkouts beyond the bound wait for a release to free
/// a permit.
pub proof fn lemma_admission_bound(p: SpecPool)
    requires
        spec_pool_wf(p),
    ensures
        table_in_use(p.table) <= p.max_connections,
{
}

/// The first index of an available entry, if any.
fn find_available(es: &Vec<ConnectionEntry>, now: u64, idle_timeout: u64) -> (r: Option<usize>)
    ensures
        match r {
            Some(j) => spec_first_available(es@, now, idle_timeout) == j,
            None => spec_first_available(es@, now, idle_timeout) == -1,
        },
{
    let mut i: usize = 0;
    while i < es.len()
        invariant
            i <= es@.len(),
            forall|j: int| 0 <= j < i ==> !entry_available(es@[j], now, idle_timeout),
        decreases es@.len() - i,
    {
        let e = es[i];
        let elapsed = if now >= e.last_used {
            now - e.last_used
        } else {
            0
        };
        if !e.in_use && elapsed < idle_timeout {
            proof {
                lemma_first_available_is(es@, now, idle_timeout, i as int);
            }
            return Some(i);
        }
        i = i + 1;
    }
    proof {
        lemma_first_available_is(es@, now, idle_timeout, es@.len() as int);
    }
    None
}

/// The first index of the entry with an id, if any.
fn find_by_id(es: &Vec<ConnectionEntry>, id: u64) -> (r: Option<usize>)
    ensures
        match r {
            Some(j) => spec_id_index(es@, id) == j,
            None => spec_id_index(es@, id) == -1,
        },
{
    let mut i: usize = 0;
    while i < es.len()
        invariant
            i <= es@.len(),
            forall|j: int| 0 <= j < i ==> es@[j].id != id,
        decreases es@.len() - i,
    {
        if es[i].id == id {
            proof {
                lemma_id_index_is(es@, id, i as int);
            }
            return Some(i);
        }
        i = i + 1;
    }
    proof {
        lemma_id_index_is(es@, id, es@.len() as int);
    }
    None
}

} // verus!
