//! The connection pool's state machine: which resource holds which VISA
//! session and what its record says, and how connects, disconnects and
//! heartbeats change it. The VISA calls themselves are made by the caller,
//! which hands their outcomes to the transitions here.
use vstd::prelude::*;
use crate::clock::{Reading, Timestamp};
use crate::connection::{Connection, ConnectionState};
use crate::discovery::{lemma_insert_sorted, lemma_push_contains, strictly_sorted, views};
use crate::errors::DomainError;
use vstd::string::*;
use crate::text::{chars_lt, chars_of, lemma_seq_lt_irreflexive, lemma_seq_lt_trichotomy, seq_lt};

verus! {

/// One pooled resource: its record plus, while a session is held open,
/// the raw VISA session handle backing it.
#[derive(Debug)]
pub struct PoolEntry {
    pub connection: Connection,
    pub session: Option<u32>,
}

/// The clock readings behind a record's connection and heartbeat times.
#[derive(Clone, Copy)]
struct Stamps {
    connected: Option<Reading>,
    heartbeat: Option<Reading>,
}

struct Slot {
    key: Vec<char>,
    entry: PoolEntry,
    stamps: Stamps,
}

/// The pooled connections, at most one per resource, with a count of the
/// clock readings the pool has taken.
pub struct ConnectionPool {
    slots: Vec<Slot>,
    readings: Ghost<nat>,
}

/// The instant of a reading, if there is one.
pub open spec fn instant_of(r: Option<Reading>) -> Option<Timestamp> {
    match r {
        Some(rd) => Some(rd.instant()),
        None => None,
    }
}

/// Whether `r` is the reading numbered `n`: the one taken when `n`
/// readings had been taken before it.
pub open spec fn stamped_now(r: Option<Reading>, n: nat) -> bool {
    r matches Some(rd) && rd.number() == n
}

/// Whether `r`, if any, was taken before the `n`-th reading.
pub open spec fn taken_before(r: Option<Reading>, n: nat) -> bool {
    r matches Some(rd) ==> rd.number() < n
}

/// The times of `c` are the instants of the readings `st`, each taken
/// before the `n`-th reading.
spec fn stamps_fit(st: Stamps, c: Connection, n: nat) -> bool {
    &&& c.connected_at == instant_of(st.connected)
    &&& c.last_heartbeat_at == instant_of(st.heartbeat)
    &&& taken_before(st.connected, n)
    &&& taken_before(st.heartbeat, n)
}

spec fn slot_key(s: Slot) -> Seq<char> {
    s.entry.connection.resource@
}

spec fn slots_map(s: Seq<Slot>) -> Map<Seq<char>, PoolEntry>
    decreases s.len(),
{
    if s.len() == 0 {
        Map::empty()
    } else {
        slots_map(s.drop_last()).insert(slot_key(s.last()), s.last().entry)
    }
}

spec fn unique_keys(s: Seq<Slot>) -> bool {
    forall|i: int, j: int| 0 <= i < j < s.len() ==> slot_key(#[trigger] s[i]) != slot_key(#[trigger] s[j])
}

proof fn lemma_map_domain(s: Seq<Slot>, k: Seq<char>)
    ensures
        slots_map(s).contains_key(k) <==> exists|i: int| 0 <= i < s.len() && slot_key(#[trigger] s[i]) == k,
    decreases s.len(),
{
    if s.len() > 0 {
        lemma_map_domain(s.drop_last(), k);
        if slots_map(s).contains_key(k) && k != slot_key(s.last()) {
            let i = choose|i: int| 0 <= i < s.drop_last().len() && slot_key(#[trigger] s.drop_last()[i]) == k;
            assert(s[i] == s.drop_last()[i]);
        }
        if exists|i: int| 0 <= i < s.len() && slot_key(#[trigger] s[i]) == k {
            let i = choose|i: int| 0 <= i < s.len() && slot_key(#[trigger] s[i]) == k;
            if i < s.len() - 1 {
                assert(s.drop_last()[i] == s[i]);
            }
        }
    }
}

proof fn lemma_map_index(s: Seq<Slot>, i: int)
    requires
        unique_keys(s),
        0 <= i < s.len(),
    ensures
        slots_map(s).contains_key(slot_key(s[i])),
        slots_map(s)[slot_key(s[i])] == s[i].entry,
    decreases s.len(),
{
    if i < s.len() - 1 {
        assert(unique_keys(s.drop_last()));
        assert(s.drop_last()[i] == s[i]);
        lemma_map_index(s.drop_last(), i);
        assert(slot_key(s[i]) != slot_key(s[s.len() - 1]));
    }
}

proof fn lemma_map_update(s: Seq<Slot>, i: int, t: Slot)
    requires
        unique_keys(s),
        0 <= i < s.len(),
        slot_key(t) == slot_key(s[i]),
    ensures
        unique_keys(s.update(i, t)),
        slots_map(s.update(i, t)) == slots_map(s).insert(slot_key(t), t.entry),
    decreases s.len(),
{
    let u = s.update(i, t);
    assert forall|a: int, b: int| 0 <= a < b < u.len() implies slot_key(#[trigger] u[a]) != slot_key(
        #[trigger] u[b],
    ) by {
        assert(slot_key(u[a]) == slot_key(s[a]));
        assert(slot_key(u[b]) == slot_key(s[b]));
    }
    if i == s.len() - 1 {
        assert(u.drop_last() =~= s.drop_last());
        assert(slots_map(u) =~= slots_map(s).insert(slot_key(t), t.entry));
    } else {
        assert(u.drop_last() =~= s.drop_last().update(i, t));
        assert(unique_keys(s.drop_last()));
        lemma_map_update(s.drop_last(), i, t);
        assert(slot_key(s.last()) != slot_key(t));
        assert(slots_map(u) =~= slots_map(s).insert(slot_key(t), t.entry));
    }
}

/// Whether `c` is one of the records of `m`, stored under its resource.
pub open spec fn record_of(m: Map<Seq<char>, PoolEntry>, c: Connection) -> bool {
    m.contains_key(c.resource@) && m[c.resource@].connection == c
}

/// The record after a successful open of a session: connected now, no
/// retries, no error.
pub open spec fn freshly_connected(c: Connection, resource: Seq<char>) -> bool {
    &&& c.resource@ == resource
    &&& c.state == ConnectionState::Connected
    &&& c.connected_at is Some
    &&& c.last_heartbeat_at == c.connected_at
    &&& c.retry_count == 0
    &&& c.last_error is None
}

impl View for ConnectionPool {
    type V = Map<Seq<char>, PoolEntry>;

    closed spec fn view(&self) -> Map<Seq<char>, PoolEntry> {
        slots_map(self.slots@)
    }
}

impl ConnectionPool {
    /// Every slot's key is its record's resource, and no resource occurs
    /// twice.
    closed spec fn keyed(&self) -> bool {
        &&& unique_keys(self.slots@)
        &&& forall|i: int| 0 <= i < self.slots@.len() ==> (#[trigger] self.slots@[i]).key@
            == slot_key(self.slots@[i])
        &&& forall|i: int| 0 <= i < self.slots@.len() ==> stamps_fit(
            (#[trigger] self.slots@[i]).stamps,
            self.slots@[i].entry.connection,
            self.readings@,
        )
    }

    /// The slot that holds `k`.
    closed spec fn slot_index(&self, k: Seq<char>) -> int {
        choose|j: int| 0 <= j < self.slots@.len() && slot_key(self.slots@[j]) == k
    }

    /// How many clock readings the pool has taken.
    pub closed spec fn readings_taken(&self) -> nat {
        self.readings@
    }

    /// The clock reading behind the connection time of `k`'s record.
    pub closed spec fn connected_stamp(&self, k: Seq<char>) -> Option<Reading> {
        self.slots@[self.slot_index(k)].stamps.connected
    }

    /// The clock reading behind the last heartbeat time of `k`'s record.
    pub closed spec fn heartbeat_stamp(&self, k: Seq<char>) -> Option<Reading> {
        self.slots@[self.slot_index(k)].stamps.heartbeat
    }

    proof fn lemma_slot_index(&self, i: int)
        requires
            unique_keys(self.slots@),
            0 <= i < self.slots@.len(),
        ensures
            self.slot_index(slot_key(self.slots@[i])) == i,
    {
        let k = slot_key(self.slots@[i]);
        assert(0 <= i < self.slots@.len() && slot_key(self.slots@[i]) == k);
        let j = self.slot_index(k);
        if j != i {
            if j < i {
                assert(slot_key(self.slots@[j]) != slot_key(self.slots@[i]));
            } else {
                assert(slot_key(self.slots@[i]) != slot_key(self.slots@[j]));
            }
        }
    }

    /// Every time a record holds is the instant of a clock reading the
    /// pool took, numbered below the count of readings taken.
    pub proof fn law_times_are_readings(&self, k: Seq<char>)
        requires
            self.well_formed(),
            self@.contains_key(k),
        ensures
            self@[k].connection.connected_at == instant_of(self.connected_stamp(k)),
            self@[k].connection.last_heartbeat_at == instant_of(self.heartbeat_stamp(k)),
            taken_before(self.connected_stamp(k), self.readings_taken()),
            taken_before(self.heartbeat_stamp(k), self.readings_taken()),
    {
        lemma_map_domain(self.slots@, k);
        let i = choose|i: int| 0 <= i < self.slots@.len() && slot_key(#[trigger] self.slots@[i]) == k;
        lemma_map_index(self.slots@, i);
        self.lemma_slot_index(i);
    }

    /// The pool is keyed by resource, and an entry holds a session exactly
    /// when its record reads `Connected` or `Busy`.
    pub closed spec fn well_formed(&self) -> bool {
        &&& self.keyed()
        &&& sessions_match_states(self@)
    }

    /// In a well-formed pool an entry holds a session exactly when its
    /// record reads `Connected` (a live, idle session) or `Busy` (a session
    /// in use); `Disconnected` and `Error` records hold none.
    pub proof fn law_sessions_match_states(&self)
        requires
            self.well_formed(),
        ensures
            sessions_match_states(self@),
    {
    }

    /// Each stored record sits under its own resource.
    pub proof fn lemma_keyed(&self, k: Seq<char>)
        requires
            self.well_formed(),
            self@.contains_key(k),
        ensures
            self@[k].connection.resource@ == k,
    {
        lemma_map_domain(self.slots@, k);
        let i = choose|i: int| 0 <= i < self.slots@.len() && slot_key(#[trigger] self.slots@[i]) == k;
        lemma_map_index(self.slots@, i);
    }

    /// An empty pool.
    pub fn new() -> (r: Self)
        ensures
            r.well_formed(),
            r@ == Map::<Seq<char>, PoolEntry>::empty(),
    {
        ConnectionPool { slots: Vec::new(), readings: Ghost(0) }
    }

    fn find(&self, key: &Vec<char>) -> (r: Option<usize>)
        requires
            self.keyed(),
        ensures
            match r {
                Some(i) => i < self.slots@.len() && slot_key(self.slots@[i as int]) == key@
                    && self@.contains_key(key@) && self@[key@] == self.slots@[i as int].entry
                    && self.slot_index(key@) == i,
                None => !self@.contains_key(key@),
            },
    {
        let mut i: usize = 0;
        while i < self.slots.len()
            invariant
                self.keyed(),
                i <= self.slots@.len(),
                forall|j: int| 0 <= j < i ==> slot_key(#[trigger] self.slots@[j]) != key@,
            decreases self.slots.len() - i,
        {
            let k = &self.slots[i].key;
            if !chars_lt(k.as_slice(), key.as_slice()) && !chars_lt(key.as_slice(), k.as_slice()) {
                proof {
                    lemma_seq_lt_trichotomy(k@, key@);
                    lemma_map_index(self.slots@, i as int);
                    self.lemma_slot_index(i as int);
                }
                return Some(i);
            }
            proof {
                if k@ == key@ {
                    lemma_seq_lt_irreflexive(key@);
                }
            }
            i = i + 1;
        }
        proof {
            lemma_map_domain(self.slots@, key@);
        }
        None
    }

    fn replace(&mut self, i: usize, entry: PoolEntry, stamps: Stamps)
        requires
            old(self).keyed(),
            i < old(self).slots@.len(),
            entry.connection.resource@ == slot_key(old(self).slots@[i as int]),
            stamps_fit(stamps, entry.connection, old(self).readings@),
        ensures
            final(self).keyed(),
            final(self)@ == old(self)@.insert(entry.connection.resource@, entry),
            final(self).readings@ == old(self).readings@,
            final(self).slot_index(entry.connection.resource@) == i,
            final(self).slots@[i as int].stamps == stamps,
    {
        let key = chars_of(entry.connection.resource.as_str());
        let slot = Slot { key, entry, stamps };
        proof {
            lemma_map_update(self.slots@, i as int, slot);
        }
        self.slots.set(i, slot);
        proof {
            self.lemma_slot_index(i as int);
        }
    }

    fn add(&mut self, entry: PoolEntry, stamps: Stamps)
        requires
            old(self).keyed(),
            !old(self)@.contains_key(entry.connection.resource@),
            stamps_fit(stamps, entry.connection, old(self).readings@),
        ensures
            final(self).keyed(),
            final(self)@ == old(self)@.insert(entry.connection.resource@, entry),
            final(self).readings@ == old(self).readings@,
            final(self).slots@[final(self).slot_index(entry.connection.resource@)].stamps == stamps,
    {
        let key = chars_of(entry.connection.resource.as_str());
        let slot = Slot { key, entry, stamps };
        proof {
            lemma_map_domain(self.slots@, slot_key(slot));
            assert forall|j: int| 0 <= j < self.slots@.len() implies slot_key(
                #[trigger] self.slots@[j],
            ) != slot_key(slot) by {}
        }
        let ghost before = self.slots@;
        self.slots.push(slot);
        proof {
            assert(self.slots@.drop_last() =~= before);
            self.lemma_slot_index(before.len() as int);
        }
    }

    fn take_entry(&self, i: usize) -> (r: PoolEntry)
        requires
            self.keyed(),
            i < self.slots@.len(),
        ensures
            r == self.slots@[i as int].entry,
    {
        let e = &self.slots[i].entry;
        PoolEntry { connection: e.connection.clone(), session: e.session }
    }

    fn stamps_at(&self, i: usize) -> (r: Stamps)
        requires
            i < self.slots@.len(),
        ensures
            r == self.slots@[i as int].stamps,
    {
        self.slots[i].stamps
    }

    /// Stores `entry` under its resource with the readings behind its
    /// times, replacing any entry there.
    fn put(&mut self, entry: PoolEntry, stamps: Stamps)
        requires
            old(self).keyed(),
            stamps_fit(stamps, entry.connection, old(self).readings@),
        ensures
            final(self).keyed(),
            final(self)@ == old(self)@.insert(entry.connection.resource@, entry),
            final(self).readings@ == old(self).readings@,
            final(self).connected_stamp(entry.connection.resource@) == stamps.connected,
            final(self).heartbeat_stamp(entry.connection.resource@) == stamps.heartbeat,
    {
        let key = chars_of(entry.connection.resource.as_str());
        match self.find(&key) {
            Some(i) => self.replace(i, entry, stamps),
            None => self.add(entry, stamps),
        }
    }

    /// The entry and the readings behind its times stored under
    /// `resource`, if any.
    fn locate(&self, resource: &str) -> (r: Option<(PoolEntry, Stamps)>)
        requires
            self.keyed(),
        ensures
            match r {
                Some((e, st)) => self@.contains_key(resource@) && e == self@[resource@]
                    && e.connection.resource@ == resource@ && st.connected == self.connected_stamp(
                    resource@,
                ) && st.heartbeat == self.heartbeat_stamp(resource@) && stamps_fit(
                    st,
                    e.connection,
                    self.readings@,
                ),
                None => !self@.contains_key(resource@),
            },
    {
        let key = chars_of(resource);
        match self.find(&key) {
            Some(i) => Some((self.take_entry(i), self.stamps_at(i))),
            None => None,
        }
    }

    /// Takes a clock reading, numbered with the count of readings taken.
    fn read_clock(&mut self) -> (r: Reading)
        requires
            old(self).keyed(),
        ensures
            final(self).keyed(),
            final(self)@ == old(self)@,
            final(self).slots@ == old(self).slots@,
            r.number() == old(self).readings@,
            final(self).readings@ == old(self).readings@ + 1,
    {
        let r = Reading::take(Ghost(self.readings@));
        self.readings = Ghost(self.readings@ + 1);
        assert(forall|i: int| 0 <= i < self.slots@.len() ==> stamps_fit(
            (#[trigger] self.slots@[i]).stamps,
            self.slots@[i].entry.connection,
            self.readings@,
        ));
        r
    }

    /// The entry stored under `resource`, if any.
    pub fn lookup(&self, resource: &str) -> (r: Option<PoolEntry>)
        requires
            self.well_formed(),
        ensures
            match r {
                Some(e) => self@.contains_key(resource@) && e == self@[resource@],
                None => !self@.contains_key(resource@),
            },
    {
        let key = chars_of(resource);
        match self.find(&key) {
            Some(i) => Some(self.take_entry(i)),
            None => None,
        }
    }

    /// The connected record of `resource`, for reuse, where there is one.
    pub fn reusable(&self, resource: &str) -> (r: Option<Connection>)
        requires
            self.well_formed(),
        ensures
            match r {
                Some(c) => self@.contains_key(resource@) && self@[resource@].connection.state
                    == ConnectionState::Connected && c == self@[resource@].connection,
                None => !(self@.contains_key(resource@) && self@[resource@].connection.state
                    == ConnectionState::Connected),
            },
    {
        match self.lookup(resource) {
            Some(e) => {
                if e.connection.state == ConnectionState::Connected {
                    Some(e.connection)
                } else {
                    None
                }
            },
            None => None,
        }
    }

    /// The retry count of `resource`'s record, if the pool tracks it.
    pub fn retry_count(&self, resource: &str) -> (r: Option<u32>)
        requires
            self.well_formed(),
        ensures
            match r {
                Some(n) => self@.contains_key(resource@) && n == self@[resource@].connection.retry_count,
                None => !self@.contains_key(resource@),
            },
    {
        match self.lookup(resource) {
            Some(e) => Some(e.connection.retry_count),
            None => None,
        }
    }

    /// Records a successful connect: `session` is open to `resource`,
    /// which is connected as of now. Any entry of `resource` is replaced;
    /// the session it held, if any, is handed back for closing, so no open
    /// session is lost.
    pub fn record_connected(&mut self, resource: &str, session: u32) -> (r: (Connection, Option<u32>))
        requires
            old(self).well_formed(),
        ensures
            final(self).well_formed(),
            freshly_connected(r.0, resource@),
            r.1 == held_session(old(self)@, resource@),
            final(self).readings_taken() == old(self).readings_taken() + 1,
            stamped_now(final(self).connected_stamp(resource@), old(self).readings_taken()),
            final(self).heartbeat_stamp(resource@) == final(self).connected_stamp(resource@),
            r.0.connected_at == instant_of(final(self).connected_stamp(resource@)),
            final(self)@ == old(self)@.insert(
                resource@,
                PoolEntry { connection: r.0, session: Some(session) },
            ),
    {
        let previous = match self.lookup(resource) {
            Some(e) => e.session,
            None => None,
        };
        let reading = self.read_clock();
        let now = reading.time();
        let connection = Connection {
            resource: String::from_str(resource),
            state: ConnectionState::Connected,
            connected_at: Some(now),
            last_heartbeat_at: Some(now),
            retry_count: 0,
            last_error: None,
        };
        self.put(
            PoolEntry { connection: connection.clone(), session: Some(session) },
            Stamps { connected: Some(reading), heartbeat: Some(reading) },
        );
        (connection, previous)
    }

    /// Records a failed connect: the record of `resource` reads `Error`
    /// with `error`, no session and one more retry than before (the first
    /// where the pool did not track it). The session the entry held, if
    /// any, is handed back for closing.
    pub fn record_connect_failure(&mut self, resource: &str, error: String) -> (r: (Connection, Option<u32>))
        requires
            old(self).well_formed(),
            old(self)@.contains_key(resource@) ==> old(self)@[resource@].connection.retry_count
                < u32::MAX,
        ensures
            final(self).well_formed(),
            r.1 == held_session(old(self)@, resource@),
            r.0.resource@ == resource@,
            r.0.state == ConnectionState::Error,
            r.0.connected_at is None,
            r.0.last_heartbeat_at is None,
            r.0.retry_count == (if old(self)@.contains_key(resource@) {
                old(self)@[resource@].connection.retry_count + 1
            } else {
                1
            }),
            r.0.last_error == Some(error),
            final(self)@ == old(self)@.insert(resource@, PoolEntry { connection: r.0, session: None }),
            final(self).readings_taken() == old(self).readings_taken(),
    {
        let (previous, held) = match self.lookup(resource) {
            Some(e) => (e.connection.retry_count, e.session),
            None => (0, None),
        };
        let connection = Connection {
            resource: String::from_str(resource),
            state: ConnectionState::Error,
            connected_at: None,
            last_heartbeat_at: None,
            retry_count: previous + 1,
            last_error: Some(error),
        };
        self.put(
            PoolEntry { connection: connection.clone(), session: None },
            Stamps { connected: None, heartbeat: None },
        );
        (connection, held)
    }

    /// Disconnects `resource`: its session is handed back for closing and
    /// its record reads `Disconnected`, with no connection time, no error
    /// and no retries. `NotFound` where the pool does not track it.
    pub fn disconnect(&mut self, resource: &str) -> (r: Result<(Connection, Option<u32>), DomainError>)
        requires
            old(self).well_formed(),
        ensures
            final(self).well_formed(),
            !old(self)@.contains_key(resource@) ==> final(self)@ == old(self)@ && (r matches Err(
                DomainError::NotFound(s),
            ) && s@ == resource@),
            old(self)@.contains_key(resource@) ==> (r matches Ok((c, session)) && session == old(
                self,
            )@[resource@].session && disconnected_from(c, old(self)@[resource@].connection)
                && final(self)@ == old(self)@.insert(
                resource@,
                PoolEntry { connection: c, session: None },
            )),
            final(self).readings_taken() == old(self).readings_taken(),
    {
        match self.locate(resource) {
            None => Err(DomainError::NotFound(String::from_str(resource))),
            Some((e, st)) => {
                proof {
                    self.lemma_keyed(resource@);
                }
                let session = e.session;
                let mut connection = e.connection;
                connection.state = ConnectionState::Disconnected;
                connection.connected_at = None;
                connection.last_error = None;
                connection.retry_count = 0;
                self.put(
                    PoolEntry { connection: connection.clone(), session: None },
                    Stamps { connected: None, heartbeat: st.heartbeat },
                );
                Ok((connection, session))
            },
        }
    }


    /// Starts a heartbeat of `resource`: where the pool holds a session
    /// for it, its record reads `Busy` and the session is handed out for
    /// the liveness check; otherwise nothing changes.
    pub fn begin_heartbeat(&mut self, resource: &str) -> (r: Option<u32>)
        requires
            old(self).well_formed(),
        ensures
            final(self).well_formed(),
            match r {
                Some(session) => old(self)@.contains_key(resource@) && old(self)@[resource@].session
                    == Some(session) && final(self)@ == old(self)@.insert(
                    resource@,
                    PoolEntry {
                        connection: Connection {
                            state: ConnectionState::Busy,
                            ..old(self)@[resource@].connection
                        },
                        session: Some(session),
                    },
                ),
                None => final(self)@ == old(self)@ && !(old(self)@.contains_key(resource@) && old(
                    self,
                )@[resource@].session is Some),
            },
            final(self).readings_taken() == old(self).readings_taken(),
    {
        match self.locate(resource) {
            None => None,
            Some((e, st)) => {
                match e.session {
                    None => None,
                    Some(session) => {
                        proof {
                            self.lemma_keyed(resource@);
                        }
                        let mut connection = e.connection;
                        connection.state = ConnectionState::Busy;
                        self.put(PoolEntry { connection, session: Some(session) }, st);
                        Some(session)
                    },
                }
            },
        }
    }

    /// Records a successful liveness check of `resource` on `session`:
    /// where its record still reads `Busy` on that session (the one
    /// `begin_heartbeat` handed out), it reads `Connected` again,
    /// heartbeat now, no retries, no error. Otherwise the check was
    /// overtaken (by a disconnect, a reconnect or a fresh connect) and
    /// nothing changes.
    pub fn record_heartbeat_ok(&mut self, resource: &str, session: u32)
        requires
            old(self).well_formed(),
        ensures
            final(self).well_formed(),
            !heartbeat_pending(old(self)@, resource@, session) ==> final(self)@ == old(self)@,
            heartbeat_pending(old(self)@, resource@, session) ==> exists|c: Connection|
                refreshed(c, old(self)@[resource@].connection) && final(self)@ == old(self)@.insert(
                    resource@,
                    PoolEntry { connection: c, session: Some(session) },
                ),
            heartbeat_pending(old(self)@, resource@, session) ==> {
                &&& final(self).readings_taken() == old(self).readings_taken() + 1
                &&& stamped_now(final(self).heartbeat_stamp(resource@), old(self).readings_taken())
                &&& final(self)@[resource@].connection.last_heartbeat_at == instant_of(
                    final(self).heartbeat_stamp(resource@),
                )
                &&& final(self).connected_stamp(resource@) == old(self).connected_stamp(resource@)
            },
            !heartbeat_pending(old(self)@, resource@, session) ==> final(self).readings_taken()
                == old(self).readings_taken(),
    {
        match self.locate(resource) {
            None => {},
            Some((e, st)) => {
                let held = match e.session {
                    Some(s) => s == session,
                    None => false,
                };
                if e.connection.state == ConnectionState::Busy && held {
                    proof {
                        self.lemma_keyed(resource@);
                    }
                    let reading = self.read_clock();
                    let mut connection = e.connection;
                    connection.state = ConnectionState::Connected;
                    connection.last_heartbeat_at = Some(reading.time());
                    connection.retry_count = 0;
                    connection.last_error = None;
                    let ghost c = connection;
                    self.put(
                        PoolEntry { connection, session: Some(session) },
                        Stamps { connected: st.connected, heartbeat: Some(reading) },
                    );
                    assert(refreshed(c, old(self)@[resource@].connection));
                }
            },
        }
    }

    /// Starts a reconnect of `resource`: its stale session, if any, is
    /// handed out for closing and the pool no longer holds it, so a record
    /// that read `Connected` or `Busy` now reads `Disconnected`. `None`
    /// where the pool does not track the resource (the reconnect is then
    /// abandoned), with nothing changed.
    pub fn begin_reconnect(&mut self, resource: &str) -> (r: Option<Option<u32>>)
        requires
            old(self).well_formed(),
        ensures
            final(self).well_formed(),
            !old(self)@.contains_key(resource@) ==> r is None && final(self)@ == old(self)@,
            old(self)@.contains_key(resource@) ==> r == Some(old(self)@[resource@].session)
                && final(self)@ == old(self)@.insert(
                resource@,
                PoolEntry { connection: released(old(self)@[resource@]), session: None },
            ),
            final(self).readings_taken() == old(self).readings_taken(),
    {
        match self.locate(resource) {
            None => None,
            Some((e, st)) => {
                proof {
                    self.lemma_keyed(resource@);
                }
                let stale = e.session;
                let mut connection = e.connection;
                if stale.is_some() {
                    connection.state = ConnectionState::Disconnected;
                }
                self.put(PoolEntry { connection, session: None }, st);
                Some(stale)
            },
        }
    }

    /// Records a successful reopen of `resource` with `session`: where
    /// the pool still awaits it (tracks the resource and holds no session
    /// for it), the record reads `Connected`, heartbeat now, no retries, no
    /// error (its connection time stays), and `None` comes back. Otherwise
    /// the reopen was overtaken (the resource is gone, or a connect opened
    /// a session meanwhile): nothing changes and `session` is handed back
    /// for closing.
    pub fn record_reconnected(&mut self, resource: &str, session: u32) -> (r: Option<u32>)
        requires
            old(self).well_formed(),
        ensures
            final(self).well_formed(),
            !reopen_pending(old(self)@, resource@) ==> r == Some(session) && final(self)@ == old(
                self,
            )@,
            reopen_pending(old(self)@, resource@) ==> r is None && exists|c: Connection|
                refreshed(c, old(self)@[resource@].connection) && final(self)@ == old(self)@.insert(
                    resource@,
                    PoolEntry { connection: c, session: Some(session) },
                ),
            reopen_pending(old(self)@, resource@) ==> {
                &&& final(self).readings_taken() == old(self).readings_taken() + 1
                &&& stamped_now(final(self).heartbeat_stamp(resource@), old(self).readings_taken())
                &&& final(self)@[resource@].connection.last_heartbeat_at == instant_of(
                    final(self).heartbeat_stamp(resource@),
                )
                &&& final(self).connected_stamp(resource@) == old(self).connected_stamp(resource@)
            },
            !reopen_pending(old(self)@, resource@) ==> final(self).readings_taken() == old(
                self,
            ).readings_taken(),
    {
        match self.locate(resource) {
            None => Some(session),
            Some((e, st)) => {
                if e.session.is_some() {
                    return Some(session);
                }
                proof {
                    self.lemma_keyed(resource@);
                }
                let reading = self.read_clock();
                let mut connection = e.connection;
                connection.state = ConnectionState::Connected;
                connection.last_heartbeat_at = Some(reading.time());
                connection.retry_count = 0;
                connection.last_error = None;
                let ghost c = connection;
                self.put(
                    PoolEntry { connection, session: Some(session) },
                    Stamps { connected: st.connected, heartbeat: Some(reading) },
                );
                assert(refreshed(c, old(self)@[resource@].connection));
                None
            },
        }
    }

    /// Records a failed reopen of `resource`: where the pool tracks it and
    /// holds no session for it, its record reads `Error` with `error` and
    /// one more retry. Nothing changes where the pool no longer tracks it,
    /// or has meanwhile opened a session for it.
    pub fn record_reconnect_failure(&mut self, resource: &str, error: String)
        requires
            old(self).well_formed(),
            old(self)@.contains_key(resource@) ==> old(self)@[resource@].connection.retry_count
                < u32::MAX,
        ensures
            final(self).well_formed(),
            !reopen_pending(old(self)@, resource@) ==> final(self)@ == old(self)@,
            reopen_pending(old(self)@, resource@) ==> final(self)@ == old(self)@.insert(
                resource@,
                PoolEntry {
                    connection: Connection {
                        state: ConnectionState::Error,
                        retry_count: (old(self)@[resource@].connection.retry_count + 1) as u32,
                        last_error: Some(error),
                        ..old(self)@[resource@].connection
                    },
                    session: None,
                },
            ),
            final(self).readings_taken() == old(self).readings_taken(),
    {
        match self.locate(resource) {
            None => {},
            Some((e, st)) => {
                if e.session.is_none() {
                    proof {
                        self.lemma_keyed(resource@);
                    }
                    let mut connection = e.connection;
                    connection.state = ConnectionState::Error;
                    connection.retry_count = connection.retry_count + 1;
                    connection.last_error = Some(error);
                    self.put(PoolEntry { connection, session: None }, st);
                }
            },
        }
    }

    /// The resources whose record is in `state` or in `other`, in pool
    /// order.
    fn resources_in_state(&self, state: ConnectionState, other: ConnectionState) -> (r: Vec<String>)
        requires
            self.well_formed(),
        ensures
            views(r@).no_duplicates(),
            forall|x: Seq<char>| #[trigger] views(r@).contains(x) <==> (self@.contains_key(x)
                && (self@[x].connection.state == state || self@[x].connection.state == other)),
    {
        let mut out: Vec<String> = Vec::new();
        let mut i: usize = 0;
        while i < self.slots.len()
            invariant
                self.well_formed(),
                i <= self.slots@.len(),
                views(out@).no_duplicates(),
                forall|x: Seq<char>| #[trigger] views(out@).contains(x) <==> exists|j: int|
                    0 <= j < i && slot_key(#[trigger] self.slots@[j]) == x
                        && (self.slots@[j].entry.connection.state == state || self.slots@[j].entry.connection.state == other),
            decreases self.slots.len() - i,
        {
            let ghost before = views(out@);
            let c = &self.slots[i].entry.connection;
            if c.state == state || c.state == other {
                let ghost x = c.resource@;
                proof {
                    if before.contains(x) {
                        let j = choose|j: int| 0 <= j < i && slot_key(#[trigger] self.slots@[j]) == x
                            && (self.slots@[j].entry.connection.state == state || self.slots@[j].entry.connection.state == other);
                        assert(slot_key(self.slots@[j]) != slot_key(self.slots@[i as int]));
                    }
                }
                out.push(c.resource.clone());
                proof {
                    assert(views(out@) =~= before.push(x));
                    assert forall|y: Seq<char>| #[trigger] views(out@).contains(y) <==> exists|j: int|
                        0 <= j < i + 1 && slot_key(#[trigger] self.slots@[j]) == y
                            && (self.slots@[j].entry.connection.state == state || self.slots@[j].entry.connection.state == other) by {
                        lemma_push_contains(before, x, y);
                        if y == x {
                            assert(slot_key(self.slots@[i as int]) == y);
                        }
                    }
                    assert forall|a: int, b: int| 0 <= a < b < views(out@).len() implies views(out@)[a]
                        != views(out@)[b] by {
                        if b == views(out@).len() - 1 {
                            assert(before.contains(before[a]));
                        } else {
                            assert(before[a] != before[b]);
                        }
                    }
                }
            } else {
                proof {
                    assert forall|y: Seq<char>| #[trigger] views(out@).contains(y) <==> exists|j: int|
                        0 <= j < i + 1 && slot_key(#[trigger] self.slots@[j]) == y
                            && (self.slots@[j].entry.connection.state == state || self.slots@[j].entry.connection.state == other) by {
                        if exists|j: int| 0 <= j < i + 1 && slot_key(#[trigger] self.slots@[j]) == y
                            && (self.slots@[j].entry.connection.state == state || self.slots@[j].entry.connection.state == other) {
                            let j = choose|j: int| 0 <= j < i + 1 && slot_key(#[trigger] self.slots@[j]) == y
                                && (self.slots@[j].entry.connection.state == state || self.slots@[j].entry.connection.state == other);
                            assert(j != i);
                        }
                    }
                }
            }
            i = i + 1;
        }
        proof {
            assert forall|x: Seq<char>| #[trigger] views(out@).contains(x) <==> (self@.contains_key(x)
                && (self@[x].connection.state == state || self@[x].connection.state == other)) by {
                lemma_map_domain(self.slots@, x);
                if self@.contains_key(x) {
                    let j = choose|j: int| 0 <= j < self.slots@.len() && slot_key(#[trigger] self.slots@[j]) == x;
                    lemma_map_index(self.slots@, j);
                }
                if exists|j: int| 0 <= j < self.slots@.len() && slot_key(#[trigger] self.slots@[j]) == x
                    && (self.slots@[j].entry.connection.state == state || self.slots@[j].entry.connection.state == other) {
                    let j = choose|j: int| 0 <= j < self.slots@.len() && slot_key(#[trigger] self.slots@[j]) == x
                        && (self.slots@[j].entry.connection.state == state || self.slots@[j].entry.connection.state == other);
                    lemma_map_index(self.slots@, j);
                }
            }
        }
        out
    }

    /// The resources a heartbeat pass visits: those `Connected` (to be
    /// checked) and those `Disconnected` (to be reopened), each once.
    /// `Busy` and `Error` records are left alone.
    pub fn heartbeat_targets(&self) -> (r: (Vec<String>, Vec<String>))
        requires
            self.well_formed(),
        ensures
            views(r.0@).no_duplicates(),
            views(r.1@).no_duplicates(),
            forall|x: Seq<char>| #[trigger] views(r.0@).contains(x) <==> (self@.contains_key(x)
                && self@[x].connection.state == ConnectionState::Connected),
            forall|x: Seq<char>| #[trigger] views(r.1@).contains(x) <==> (self@.contains_key(x)
                && self@[x].connection.state == ConnectionState::Disconnected),
    {
        (
            self.resources_in_state(ConnectionState::Connected, ConnectionState::Connected),
            self.resources_in_state(ConnectionState::Disconnected, ConnectionState::Disconnected),
        )
    }

    /// Every record of the pool, ordered by resource.
    pub fn list(&self) -> (r: Vec<Connection>)
        requires
            self.well_formed(),
        ensures
            strictly_sorted(resources_of(r@)),
            forall|k: int| 0 <= k < r@.len() ==> record_of(self@, #[trigger] r@[k]),
            forall|x: Seq<char>| self@.contains_key(x) ==> #[trigger] resources_of(r@).contains(x),
    {
        let mut out: Vec<Connection> = Vec::new();
        let mut keys: Vec<Vec<char>> = Vec::new();
        let mut i: usize = 0;
        while i < self.slots.len()
            invariant
                self.well_formed(),
                i <= self.slots@.len(),
                keys@.len() == out@.len(),
                forall|k: int| 0 <= k < keys@.len() ==> #[trigger] keys@[k]@ == out@[k].resource@,
                strictly_sorted(resources_of(out@)),
                forall|k: int| 0 <= k < out@.len() ==> record_of(self@, #[trigger] out@[k]),
                forall|y: Seq<char>| #[trigger] resources_of(out@).contains(y) <==> exists|j: int|
                    0 <= j < i && slot_key(#[trigger] self.slots@[j]) == y,
            decreases self.slots.len() - i,
        {
            let ghost ro = resources_of(out@);
            let ghost xs = slot_key(self.slots@[i as int]);
            let x = &self.slots[i].key;
            proof {
                lemma_map_index(self.slots@, i as int);
            }
            let mut p: usize = 0;
            while p < keys.len() && chars_lt(keys[p].as_slice(), x.as_slice())
                invariant
                    p <= keys@.len() == out@.len(),
                    forall|k: int| 0 <= k < keys@.len() ==> #[trigger] keys@[k]@ == out@[k].resource@,
                    ro == resources_of(out@),
                    x@ == xs,
                    forall|k: int| 0 <= k < p ==> seq_lt(#[trigger] ro[k], xs),
                decreases keys.len() - p,
            {
                assert(ro[p as int] == keys@[p as int]@);
                p = p + 1;
            }
            proof {
                if p < keys@.len() {
                    assert(ro[p as int] == keys@[p as int]@);
                    assert(ro.contains(ro[p as int]));
                    let j = choose|j: int| 0 <= j < i && slot_key(#[trigger] self.slots@[j]) == ro[p as int];
                    assert(slot_key(self.slots@[j]) != slot_key(self.slots@[i as int]));
                    lemma_seq_lt_trichotomy(xs, ro[p as int]);
                }
                lemma_insert_sorted(ro, p as int, xs);
            }
            let c = self.slots[i].entry.connection.clone();
            let k = chars_of(c.resource.as_str());
            let ghost old_out = out@;
            let ghost old_keys = keys@;
            out.insert(p, c);
            keys.insert(p, k);
            proof {
                assert(resources_of(out@) =~= ro.insert(p as int, xs));
                assert forall|q: int| 0 <= q < keys@.len() implies #[trigger] keys@[q]@ == out@[q].resource@ by {
                    if q < p {
                        assert(keys@[q] == old_keys[q] && out@[q] == old_out[q]);
                    } else if q > p {
                        assert(keys@[q] == old_keys[q - 1] && out@[q] == old_out[q - 1]);
                    }
                }
                assert forall|q: int| 0 <= q < out@.len() implies record_of(self@, #[trigger] out@[q]) by {
                    if q < p {
                        assert(out@[q] == old_out[q]);
                    } else if q > p {
                        assert(out@[q] == old_out[q - 1]);
                    }
                }
                assert forall|y: Seq<char>| #[trigger] resources_of(out@).contains(y) <==> exists|j: int|
                    0 <= j < i + 1 && slot_key(#[trigger] self.slots@[j]) == y by {
                    let ro2 = resources_of(out@);
                    if ro2.contains(y) {
                        let q = choose|q: int| 0 <= q < ro2.len() && ro2[q] == y;
                        if q < p {
                            assert(ro[q] == y && ro.contains(y));
                        } else if q > p {
                            assert(ro[q - 1] == y && ro.contains(y));
                        } else {
                            assert(slot_key(self.slots@[i as int]) == y);
                        }
                    }
                    if exists|j: int| 0 <= j < i + 1 && slot_key(#[trigger] self.slots@[j]) == y {
                        let j = choose|j: int| 0 <= j < i + 1 && slot_key(#[trigger] self.slots@[j]) == y;
                        if j < i {
                            assert(ro.contains(y));
                            let q = choose|q: int| 0 <= q < ro.len() && ro[q] == y;
                            if q < p {
                                assert(ro2[q] == y);
                            } else {
                                assert(ro2[q + 1] == y);
                            }
                        } else {
                            assert(ro2[p as int] == y);
                        }
                    }
                }
            }
            i = i + 1;
        }
        proof {
            assert forall|x: Seq<char>| self@.contains_key(x) implies #[trigger] resources_of(out@).contains(x) by {
                lemma_map_domain(self.slots@, x);
                let j = choose|j: int| 0 <= j < self.slots@.len() && slot_key(#[trigger] self.slots@[j]) == x;
            }
        }
        out
    }
}

/// Every entry holds a session exactly when its record reads `Connected`
/// or `Busy`.
pub open spec fn sessions_match_states(m: Map<Seq<char>, PoolEntry>) -> bool {
    forall|k: Seq<char>| #[trigger] m.contains_key(k) ==> (m[k].session is Some <==> (
    m[k].connection.state == ConnectionState::Connected || m[k].connection.state
        == ConnectionState::Busy))
}

/// Whether the heartbeat that `begin_heartbeat` started on `session` for
/// `resource` is still the latest word on it: the record reads `Busy` on
/// that session.
pub open spec fn heartbeat_pending(m: Map<Seq<char>, PoolEntry>, resource: Seq<char>, session: u32) -> bool {
    &&& m.contains_key(resource)
    &&& m[resource].connection.state == ConnectionState::Busy
    &&& m[resource].session == Some(session)
}

/// Whether a reopen of `resource` is still awaited: the pool tracks it
/// and holds no session for it.
pub open spec fn reopen_pending(m: Map<Seq<char>, PoolEntry>, resource: Seq<char>) -> bool {
    m.contains_key(resource) && m[resource].session is None
}

/// The record of `e` once its session is released: `Disconnected` where
/// it held one, unchanged where it held none.
pub open spec fn released(e: PoolEntry) -> Connection {
    if e.session is Some {
        Connection { state: ConnectionState::Disconnected, ..e.connection }
    } else {
        e.connection
    }
}

/// The resources of a list of records.
pub open spec fn resources_of(v: Seq<Connection>) -> Seq<Seq<char>> {
    v.map_values(|c: Connection| c.resource@)
}

/// `c` is `prev` after a successful liveness check or reopen: same
/// resource and connection time, state `Connected`, a heartbeat time, no
/// retries, no error.
pub open spec fn refreshed(c: Connection, prev: Connection) -> bool {
    &&& c.resource == prev.resource
    &&& c.state == ConnectionState::Connected
    &&& c.connected_at == prev.connected_at
    &&& c.last_heartbeat_at is Some
    &&& c.retry_count == 0
    &&& c.last_error is None
}

/// `c` is `prev` after a disconnect: same resource and last heartbeat,
/// state `Disconnected`, no connection time, no error, no retries.
pub open spec fn disconnected_from(c: Connection, prev: Connection) -> bool {
    &&& c.resource == prev.resource
    &&& c.state == ConnectionState::Disconnected
    &&& c.connected_at is None
    &&& c.last_heartbeat_at == prev.last_heartbeat_at
    &&& c.retry_count == 0
    &&& c.last_error is None
}

/// A disconnected resource is not reused: after `disconnect` of a
/// tracked resource, its record is no longer `Connected` (so the next
/// connect opens a fresh session) and the pool holds no session for it.
pub proof fn law_disconnect_ends_reuse(
    before: Map<Seq<char>, PoolEntry>,
    after: Map<Seq<char>, PoolEntry>,
    resource: Seq<char>,
    c: Connection,
)
    requires
        before.contains_key(resource),
        disconnected_from(c, before[resource].connection),
        after == before.insert(resource, PoolEntry { connection: c, session: None }),
    ensures
        !(after.contains_key(resource) && after[resource].connection.state
            == ConnectionState::Connected),
        after[resource].session is None,
{
}

/// What a connect returns is what a later listing shows: where `c` is the
/// record the pool holds for its resource (as it is right after
/// `record_connected`, `record_connect_failure` or a reuse through
/// `reusable`), every list of the pool that `list` can return holds
/// exactly one record of that resource, and it is `c` in every field.
pub proof fn law_list_shows_record(m: Map<Seq<char>, PoolEntry>, v: Seq<Connection>, c: Connection)
    requires
        record_of(m, c),
        strictly_sorted(resources_of(v)),
        forall|k: int| 0 <= k < v.len() ==> record_of(m, #[trigger] v[k]),
        forall|x: Seq<char>| m.contains_key(x) ==> #[trigger] resources_of(v).contains(x),
    ensures
        exists|k: int| 0 <= k < v.len() && v[k] == c,
        forall|k: int, j: int|
            0 <= k < v.len() && 0 <= j < v.len() && (#[trigger] v[k]).resource@ == c.resource@
                && (#[trigger] v[j]).resource@ == c.resource@ ==> k == j,
{
    let rs = resources_of(v);
    assert(rs.contains(c.resource@));
    let k = choose|k: int| 0 <= k < rs.len() && rs[k] == c.resource@;
    assert(record_of(m, v[k]));
    assert(v[k] == c);
    assert forall|a: int, b: int|
        0 <= a < v.len() && 0 <= b < v.len() && (#[trigger] v[a]).resource@ == c.resource@
            && (#[trigger] v[b]).resource@ == c.resource@ implies a == b by {
        assert(rs[a] == v[a].resource@ && rs[b] == v[b].resource@);
        if a < b {
            assert(seq_lt(rs[a], rs[b]));
            lemma_seq_lt_irreflexive(rs[a]);
        } else if b < a {
            assert(seq_lt(rs[b], rs[a]));
            lemma_seq_lt_irreflexive(rs[a]);
        }
    }
}

/// The session `m` holds for `resource`, if any.
pub open spec fn held_session(m: Map<Seq<char>, PoolEntry>, resource: Seq<char>) -> Option<u32> {
    if m.contains_key(resource) {
        m[resource].session
    } else {
        None
    }
}

/// A connect loses no open session: when an entry of `resource` is
/// replaced by one holding `session` (as `record_connected` does) or none
/// (as `record_connect_failure` does) and the session `before` held for
/// `resource` is handed back, every session held before is still held
/// afterwards or was handed back.
pub proof fn law_connect_loses_no_session(
    before: Map<Seq<char>, PoolEntry>,
    after: Map<Seq<char>, PoolEntry>,
    resource: Seq<char>,
    entry: PoolEntry,
    handed_back: Option<u32>,
)
    requires
        after == before.insert(resource, entry),
        handed_back == held_session(before, resource),
    ensures
        forall|k: Seq<char>|
            #[trigger] before.contains_key(k) && before[k].session is Some ==> (after.contains_key(k)
                && after[k].session == before[k].session) || handed_back == before[k].session,
{
}

/// A time a transition records is a clock reading taken during that
/// call, never one carried over from a record: the reading numbered with
/// the count of readings a well-formed pool has taken (the number that
/// `record_connected`, `record_heartbeat_ok` and `record_reconnected`
/// state of the reading they stamp) is newer than the reading behind
/// every connection and heartbeat time the pool held before, so it is
/// none of them.
pub proof fn law_stamp_is_fresh(before: ConnectionPool, rd: Reading)
    requires
        before.well_formed(),
        rd.number() == before.readings_taken(),
    ensures
        forall|k: Seq<char>|
            #[trigger] before@.contains_key(k) ==> {
                &&& before.heartbeat_stamp(k) != Some(rd)
                &&& before.connected_stamp(k) != Some(rd)
                &&& taken_before(before.heartbeat_stamp(k), rd.number())
                &&& taken_before(before.connected_stamp(k), rd.number())
            },
{
    assert forall|k: Seq<char>| #[trigger] before@.contains_key(k) implies {
        &&& before.heartbeat_stamp(k) != Some(rd)
        &&& before.connected_stamp(k) != Some(rd)
        &&& taken_before(before.heartbeat_stamp(k), rd.number())
        &&& taken_before(before.connected_stamp(k), rd.number())
    } by {
        before.law_times_are_readings(k);
    }
}

/// A successful liveness check or reopen records a heartbeat time read
/// during the call: where the pool's record of `resource` afterwards
/// carries the reading numbered with the count `before` had taken (as
/// `record_heartbeat_ok` and `record_reconnected` ensure when they apply),
/// its last heartbeat time is that reading's instant and the reading is
/// newer than, so different from, the one behind the heartbeat time the
/// record held before.
pub proof fn law_heartbeat_time_is_read_now(before: ConnectionPool, after: ConnectionPool, resource: Seq<char>)
    requires
        before.well_formed(),
        after.well_formed(),
        before@.contains_key(resource),
        after@.contains_key(resource),
        stamped_now(after.heartbeat_stamp(resource), before.readings_taken()),
    ensures
        after@[resource].connection.last_heartbeat_at == instant_of(after.heartbeat_stamp(resource)),
        after.heartbeat_stamp(resource) != before.heartbeat_stamp(resource),
        taken_before(before.heartbeat_stamp(resource), before.readings_taken()),
{
    after.law_times_are_readings(resource);
    before.law_times_are_readings(resource);
}

/// A fresh connect stamps its connection time from a reading taken
/// during the call: where the record of `resource` afterwards carries the
/// reading numbered with the count `before` had taken behind its
/// connection time (as `record_connected` ensures), that time is the
/// reading's instant, the heartbeat time is the same instant, and the
/// reading is none of those behind any time the pool held before.
pub proof fn law_connect_time_is_read_now(before: ConnectionPool, after: ConnectionPool, resource: Seq<char>)
    requires
        before.well_formed(),
        after.well_formed(),
        after@.contains_key(resource),
        stamped_now(after.connected_stamp(resource), before.readings_taken()),
        after.heartbeat_stamp(resource) == after.connected_stamp(resource),
    ensures
        after@[resource].connection.connected_at == instant_of(after.connected_stamp(resource)),
        after@[resource].connection.last_heartbeat_at == after@[resource].connection.connected_at,
        forall|k: Seq<char>|
            #[trigger] before@.contains_key(k) ==> before.connected_stamp(k) != after.connected_stamp(
                resource,
            ) && before.heartbeat_stamp(k) != after.connected_stamp(resource),
{
    after.law_times_are_readings(resource);
    let rd = after.connected_stamp(resource)->0;
    law_stamp_is_fresh(before, rd);
}

} // verus!
