//! The service registry: an in-memory directory from `(group, name)`
//! ids to endpoints, refreshed by re-registration and reaped by TTL.
//!
//! The store is modelled as a sequence of entries with pairwise
//! distinct ids. The runtime owns the lock around the store and the
//! clock; every operation takes the current time as a plain
//! millisecond count.

use vstd::prelude::*;

use crate::wire::{GetServiceResponse, ListServiceResponse, RegisterServiceResponse, SvcError};

verus! {

/// What one stored entry is: an id, an endpoint and the time of the
/// last register that wrote it.
pub struct EntryModel {
    pub group: Seq<char>,
    pub name: Seq<char>,
    pub ip: Seq<char>,
    pub port: u32,
    pub last_updated: u64,
}

impl EntryModel {
    /// The id under which the entry is stored.
    pub open spec fn key(self) -> (Seq<char>, Seq<char>) {
        (self.group, self.name)
    }

    /// The part of the entry that lookup and listing answer with.
    pub open spec fn info(self) -> crate::wire::SvcInfo {
        crate::wire::SvcInfo { group: self.group, name: self.name, ip: self.ip, port: self.port }
    }
}

/// Whether some entry of `s` is stored under the id `k`.
pub open spec fn contains_key(s: Seq<EntryModel>, k: (Seq<char>, Seq<char>)) -> bool {
    exists|i: int| 0 <= i < s.len() && s[i].key() == k
}

/// The index of the entry stored under `k`; meaningful when
/// `contains_key(s, k)` holds and ids are distinct.
pub open spec fn index_of_key(s: Seq<EntryModel>, k: (Seq<char>, Seq<char>)) -> int {
    choose|i: int| 0 <= i < s.len() && s[i].key() == k
}

/// The entry stored under `k`.
pub open spec fn record_of(s: Seq<EntryModel>, k: (Seq<char>, Seq<char>)) -> EntryModel {
    s[index_of_key(s, k)]
}

/// Ids are stored at most once.
pub open spec fn distinct_keys(s: Seq<EntryModel>) -> bool {
    forall|i: int, j: int| 0 <= i < j < s.len() ==> s[i].key() != s[j].key()
}

/// What a register does to the store: replace the entry holding the
/// same id in place, or append a fresh one.
pub open spec fn upsert(s: Seq<EntryModel>, e: EntryModel) -> Seq<EntryModel> {
    if contains_key(s, e.key()) {
        s.update(index_of_key(s, e.key()), e)
    } else {
        s.push(e)
    }
}

/// What a deregister does to the store: drop the entry holding the id,
/// if any.
pub open spec fn remove_key(s: Seq<EntryModel>, k: (Seq<char>, Seq<char>)) -> Seq<EntryModel> {
    if contains_key(s, k) {
        s.remove(index_of_key(s, k))
    } else {
        s
    }
}

/// Whether the entry has gone a full TTL without being refreshed.
pub open spec fn is_stale(e: EntryModel, ttl: u64, now: u64) -> bool {
    e.last_updated + ttl <= now
}

/// Every element of a filtered sequence is an element of the sequence
/// it was filtered from.
pub proof fn lemma_filter_elements(s: Seq<EntryModel>, p: spec_fn(EntryModel) -> bool)
    ensures
        forall|i: int| 0 <= i < s.filter(p).len() ==> s.contains(#[trigger] s.filter(p)[i]),
    decreases s.len(),
{
    reveal(Seq::filter);
    if s.len() > 0 {
        lemma_filter_elements(s.drop_last(), p);
        let f = s.filter(p);
        let fd = s.drop_last().filter(p);
        assert forall|i: int| 0 <= i < f.len() implies s.contains(f[i]) by {
            if p(s.last()) && i == f.len() - 1 {
                assert(s[s.len() - 1] == f[i]);
            } else {
                assert(f[i] == fd[i]);
                assert(s.drop_last().contains(fd[i]));
                let j = choose|j: int| 0 <= j < s.drop_last().len() && s.drop_last()[j] == fd[i];
                assert(s[j] == f[i]);
            }
        }
    }
}

/// Filtering keeps ids stored at most once.
pub proof fn lemma_filter_distinct(s: Seq<EntryModel>, p: spec_fn(EntryModel) -> bool)
    requires
        distinct_keys(s),
    ensures
        distinct_keys(s.filter(p)),
    decreases s.len(),
{
    reveal(Seq::filter);
    if s.len() > 0 {
        lemma_filter_distinct(s.drop_last(), p);
        lemma_filter_elements(s.drop_last(), p);
        let f = s.filter(p);
        let fd = s.drop_last().filter(p);
        assert forall|a: int, b: int| 0 <= a < b < f.len() implies f[a].key() != f[b].key() by {
            if p(s.last()) && b == f.len() - 1 {
                assert(f[a] == fd[a]);
                assert(s.drop_last().contains(fd[a]));
                let j = choose|j: int|
                    0 <= j < s.drop_last().len() && s.drop_last()[j] == fd[a];
                assert(s[j].key() != s[s.len() - 1].key());
            } else {
                assert(f[a] == fd[a]);
                assert(f[b] == fd[b]);
            }
        }
    }
}

/// A filter that keeps every element returns the sequence unchanged.
pub proof fn lemma_filter_all(s: Seq<EntryModel>, p: spec_fn(EntryModel) -> bool)
    requires
        forall|i: int| 0 <= i < s.len() ==> p(#[trigger] s[i]),
    ensures
        s.filter(p) == s,
    decreases s.len(),
{
    reveal(Seq::filter);
    if s.len() > 0 {
        lemma_filter_all(s.drop_last(), p);
        assert(s.filter(p) =~= s);
    }
}

/// When ids are stored at most once, any index holding `k` is the one
/// `index_of_key` denotes.
pub proof fn lemma_index_unique(s: Seq<EntryModel>, k: (Seq<char>, Seq<char>), i: int)
    requires
        distinct_keys(s),
        0 <= i < s.len(),
        s[i].key() == k,
    ensures
        contains_key(s, k),
        index_of_key(s, k) == i,
        record_of(s, k) == s[i],
{
    assert(contains_key(s, k));
    let j = index_of_key(s, k);
    if j < i {
        assert(s[j].key() != s[i].key());
    } else if i < j {
        assert(s[i].key() != s[j].key());
    }
}

/// A register keeps ids stored at most once.
pub proof fn lemma_upsert_distinct(s: Seq<EntryModel>, e: EntryModel)
    requires
        distinct_keys(s),
    ensures
        distinct_keys(upsert(s, e)),
{
    let t = upsert(s, e);
    if contains_key(s, e.key()) {
        let i = index_of_key(s, e.key());
        assert(s[i].key() == e.key());
        assert forall|a: int, b: int| 0 <= a < b < t.len() implies t[a].key() != t[b].key() by {
            assert(t[a].key() == s[a].key());
            assert(t[b].key() == s[b].key());
        }
    } else {
        assert forall|a: int, b: int| 0 <= a < b < t.len() implies t[a].key() != t[b].key() by {
            if b == t.len() - 1 {
                assert(s[a].key() != e.key());
            }
        }
    }
}

/// A deregister keeps ids stored at most once.
pub proof fn lemma_remove_key_distinct(s: Seq<EntryModel>, k: (Seq<char>, Seq<char>))
    requires
        distinct_keys(s),
    ensures
        distinct_keys(remove_key(s, k)),
{
    let t = remove_key(s, k);
    if contains_key(s, k) {
        let i = index_of_key(s, k);
        assert forall|a: int, b: int| 0 <= a < b < t.len() implies t[a].key() != t[b].key() by {
            let oa = if a < i { a } else { a + 1 };
            let ob = if b < i { b } else { b + 1 };
            assert(t[a] == s[oa]);
            assert(t[b] == s[ob]);
        }
    }
}

/// Immediately after a register, looking the id up finds exactly the
/// entry the register stored.
pub proof fn lemma_register_then_get(s: Seq<EntryModel>, e: EntryModel)
    requires
        distinct_keys(s),
    ensures
        distinct_keys(upsert(s, e)),
        contains_key(upsert(s, e), e.key()),
        record_of(upsert(s, e), e.key()) == e,
{
    lemma_upsert_distinct(s, e);
    let t = upsert(s, e);
    if contains_key(s, e.key()) {
        let i = index_of_key(s, e.key());
        assert(t[i] == e);
        lemma_index_unique(t, e.key(), i);
    } else {
        assert(t[s.len() as int] == e);
        lemma_index_unique(t, e.key(), s.len() as int);
    }
}

/// After an eviction pass, no id whose record had gone a full TTL
/// without a refresh is still present.
pub proof fn lemma_stale_evicted(s: Seq<EntryModel>, ttl: u64, now: u64, k: (Seq<char>, Seq<char>))
    requires
        distinct_keys(s),
        contains_key(s, k),
        is_stale(record_of(s, k), ttl, now),
    ensures
        !contains_key(s.filter(|e: EntryModel| !is_stale(e, ttl, now)), k),
{
    let p = |e: EntryModel| !is_stale(e, ttl, now);
    let f = s.filter(p);
    if contains_key(f, k) {
        let i = choose|i: int| 0 <= i < f.len() && f[i].key() == k;
        s.lemma_filter_pred(p, i);
        lemma_filter_elements(s, p);
        assert(s.contains(f[i]));
        let j = choose|j: int| 0 <= j < s.len() && s[j] == f[i];
        lemma_index_unique(s, k, j);
    }
}

/// One registry operation as the callers describe it: the arguments of
/// a `Register` or `Deregister` request.
pub enum RegistryOp {
    Register { group: Seq<char>, name: Seq<char>, ip: Seq<char>, port: u32, now: u64 },
    Deregister { group: Seq<char>, name: Seq<char> },
}

/// What one operation does to the store, exactly as the exec methods'
/// contracts state it: a register with an empty id field is rejected
/// and leaves the store unchanged.
pub open spec fn apply_op(s: Seq<EntryModel>, op: RegistryOp) -> Seq<EntryModel> {
    match op {
        RegistryOp::Register { group, name, ip, port, now } => {
            if group.len() == 0 || name.len() == 0 {
                s
            } else {
                upsert(s, EntryModel { group, name, ip, port, last_updated: now })
            }
        },
        RegistryOp::Deregister { group, name } => remove_key(s, (group, name)),
    }
}

/// The store after a serial sequence of operations.
pub open spec fn apply_ops(s: Seq<EntryModel>, ops: Seq<RegistryOp>) -> Seq<EntryModel>
    decreases ops.len(),
{
    if ops.len() == 0 {
        s
    } else {
        apply_ops(apply_op(s, ops[0]), ops.drop_first())
    }
}

/// Serial application composes: splitting a history of registers and
/// deregisters anywhere yields the same final store. Together with the
/// methods' contracts — each call performs exactly one `apply_op`
/// under the store lock — the store after any interleaving equals the
/// serial fold of the operations in lock order.
pub proof fn lemma_serial_application(s: Seq<EntryModel>, ops1: Seq<RegistryOp>, ops2: Seq<
    RegistryOp,
>)
    ensures
        apply_ops(s, ops1 + ops2) == apply_ops(apply_ops(s, ops1), ops2),
    decreases ops1.len(),
{
    if ops1.len() == 0 {
        assert(ops1 + ops2 =~= ops2);
    } else {
        assert((ops1 + ops2)[0] == ops1[0]);
        assert((ops1 + ops2).drop_first() =~= ops1.drop_first() + ops2);
        lemma_serial_application(apply_op(s, ops1[0]), ops1.drop_first(), ops2);
    }
}

/// Every serial history preserves the store's invariant.
pub proof fn lemma_apply_ops_distinct(s: Seq<EntryModel>, ops: Seq<RegistryOp>)
    requires
        distinct_keys(s),
    ensures
        distinct_keys(apply_ops(s, ops)),
    decreases ops.len(),
{
    if ops.len() != 0 {
        match ops[0] {
            RegistryOp::Register { group, name, ip, port, now } => {
                if group.len() != 0 && name.len() != 0 {
                    lemma_upsert_distinct(
                        s,
                        EntryModel { group, name, ip, port, last_updated: now },
                    );
                }
            },
            RegistryOp::Deregister { group, name } => {
                lemma_remove_key_distinct(s, (group, name));
            },
        }
        lemma_apply_ops_distinct(apply_op(s, ops[0]), ops.drop_first());
    }
}

/// An endpoint together with the monotonic timestamp of the register
/// that stored it.
#[derive(Debug)]
pub struct ServiceRecord {
    pub addr: (String, u32),
    pub last_updated: u64,
}

impl ServiceRecord {
    /// A record stamped with the present time.
    pub fn new(addr: (String, u32), now_ms: u64) -> (r: ServiceRecord)
        ensures
            r.addr.0@ == addr.0@,
            r.addr.1 == addr.1,
            r.last_updated == now_ms,
    {
        ServiceRecord { addr, last_updated: now_ms }
    }
}

/// One stored entry: the id and its record.
#[derive(Debug)]
pub struct RegistryEntry {
    pub group: String,
    pub name: String,
    pub record: ServiceRecord,
}

impl View for RegistryEntry {
    type V = EntryModel;

    open spec fn view(&self) -> EntryModel {
        EntryModel {
            group: self.group@,
            name: self.name@,
            ip: self.record.addr.0@,
            port: self.record.addr.1,
            last_updated: self.record.last_updated,
        }
    }
}

/// The registry service: the store behind the `SerDict` RPC surface.
#[derive(Debug)]
pub struct SerDictImpl {
    entries: Vec<RegistryEntry>,
}

impl View for SerDictImpl {
    type V = Seq<EntryModel>;

    closed spec fn view(&self) -> Seq<EntryModel> {
        self.entries@.map_values(|e: RegistryEntry| e@)
    }
}

impl SerDictImpl {
    /// The store's internal invariant: ids are stored at most once.
    /// `new` establishes it and every operation preserves it.
    pub open spec fn wf(&self) -> bool {
        distinct_keys(self@)
    }

    /// An empty registry.
    pub fn new() -> (r: SerDictImpl)
        ensures
            r@ == Seq::<EntryModel>::empty(),
            r.wf(),
    {
        let r = SerDictImpl { entries: Vec::new() };
        proof {
            assert(r@ =~= Seq::<EntryModel>::empty());
        }
        r
    }

    /// The index of the entry holding the id, scanning from the front.
    fn position_of(&self, group: &String, name: &String) -> (r: Option<usize>)
        ensures
            match r {
                Some(i) => i < self@.len() && self@[i as int].key() == (group@, name@),
                None => !contains_key(self@, (group@, name@)),
            },
    {
        let n = self.entries.len();
        let mut i: usize = 0;
        while i < n
            invariant
                n == self@.len(),
                i <= n,
                forall|j: int| 0 <= j < i ==> self@[j].key() != (group@, name@),
            decreases n - i,
        {
            if self.entries[i].group == *group && self.entries[i].name == *name {
                return Some(i);
            }
            i = i + 1;
        }
        None
    }

    /// Inserts or refreshes the entry for `(group, name)`, stamping it
    /// with `now`, and echoes the endpoint read back from the store.
    /// Empty id fields are rejected and leave the store untouched.
    pub fn register_service(
        &mut self,
        group: String,
        name: String,
        ip: String,
        port: u32,
        now: u64,
    ) -> (r: Result<RegisterServiceResponse, SvcError>)
        requires
            old(self).wf(),
        ensures
            final(self).wf(),
            (group@.len() == 0 || name@.len() == 0) ==> (r matches Err(
                SvcError::InvalidArgument,
            ) && final(self)@ == old(self)@),
            (group@.len() != 0 && name@.len() != 0) ==> {
                let e = EntryModel {
                    group: group@,
                    name: name@,
                    ip: ip@,
                    port: port,
                    last_updated: now,
                };
                &&& final(self)@ == upsert(old(self)@, e)
                &&& (r matches Ok(resp) && resp.ip@ == ip@ && resp.port == port)
            },
    {
        if group.as_str().unicode_len() == 0 || name.as_str().unicode_len() == 0 {
            return Err(SvcError::InvalidArgument);
        }
        let group2 = group.clone();
        let name2 = name.clone();
        let pos = self.position_of(&group, &name);
        let record = ServiceRecord::new((ip, port), now);
        let entry = RegistryEntry { group, name, record };
        let ghost e = entry@;
        match pos {
            Some(i) => {
                proof {
                    lemma_index_unique(self@, e.key(), i as int);
                }
                self.entries.set(i, entry);
                proof {
                    assert(self@ =~= old(self)@.update(i as int, e));
                }
            },
            None => {
                self.entries.push(entry);
                proof {
                    assert(self@ =~= old(self)@.push(e));
                }
            },
        }
        proof {
            assert(distinct_keys(self@)) by {
                assert forall|a: int, b: int|
                    0 <= a < b < self@.len() implies self@[a].key() != self@[b].key() by {
                    if pos is None && b == self@.len() - 1 {
                        assert(!contains_key(old(self)@, e.key()));
                        assert(old(self)@[a].key() != e.key());
                    }
                }
            }
            lemma_index_unique(
                self@,
                e.key(),
                match pos {
                    Some(i) => i as int,
                    None => self@.len() - 1,
                },
            );
        }
        let pos2 = self.position_of(&group2, &name2);
        match pos2 {
            Some(j) => {
                proof {
                    lemma_index_unique(self@, e.key(), j as int);
                }
                let resp = RegisterServiceResponse {
                    ip: self.entries[j].record.addr.0.clone(),
                    port: self.entries[j].record.addr.1,
                };
                Ok(resp)
            },
            None => {
                // The entry was just stored, so the read-back cannot
                // miss; the arm is the surface's defensive check.
                proof {
                    assert(contains_key(self@, e.key()));
                    assert(false);
                }
                Err(SvcError::Internal)
            },
        }
    }

    /// Removes the entry for `(group, name)`; removing an absent id is
    /// a successful no-op.
    pub fn deregister_service(&mut self, group: String, name: String)
        requires
            old(self).wf(),
        ensures
            final(self).wf(),
            final(self)@ == remove_key(old(self)@, (group@, name@)),
    {
        match self.position_of(&group, &name) {
            Some(i) => {
                proof {
                    lemma_index_unique(self@, (group@, name@), i as int);
                }
                self.entries.remove(i);
                proof {
                    assert(self@ =~= old(self)@.remove(i as int));
                    assert forall|a: int, b: int|
                        0 <= a < b < self@.len() implies self@[a].key() != self@[b].key() by {
                        let oa = if a < i as int { a } else { a + 1 };
                        let ob = if b < i as int { b } else { b + 1 };
                        assert(self@[a] == old(self)@[oa]);
                        assert(self@[b] == old(self)@[ob]);
                    }
                }
            },
            None => {},
        }
    }

    /// Looks the id up; both fields are required non-empty, and a miss
    /// reports which id was asked for.
    pub fn get_service(&self, group: String, name: String) -> (r: Result<
        GetServiceResponse,
        SvcError,
    >)
        requires
            self.wf(),
        ensures
            (group@.len() == 0 || name@.len() == 0) ==> r matches Err(SvcError::InvalidArgument),
            (group@.len() != 0 && name@.len() != 0 && contains_key(self@, (group@, name@))) ==> (
            r matches Ok(resp) && resp@ == record_of(self@, (group@, name@)).info()),
            (group@.len() != 0 && name@.len() != 0 && !contains_key(self@, (group@, name@))) ==> (
            r matches Err(SvcError::NotFound { group: g, name: n }) && g@ == group@ && n@
                == name@),
    {
        if group.as_str().unicode_len() == 0 || name.as_str().unicode_len() == 0 {
            return Err(SvcError::InvalidArgument);
        }
        match self.position_of(&group, &name) {
            Some(i) => {
                proof {
                    lemma_index_unique(self@, (group@, name@), i as int);
                }
                Ok(GetServiceResponse {
                    group,
                    name,
                    ip: self.entries[i].record.addr.0.clone(),
                    port: self.entries[i].record.addr.1,
                })
            },
            None => Err(SvcError::NotFound { group, name }),
        }
    }

    /// Every record in the store, in store order.
    pub fn list_service(&self) -> (r: ListServiceResponse)
        ensures
            r.services@.map_values(|x: GetServiceResponse| x@) == self@.map_values(
                |e: EntryModel| e.info(),
            ),
            r.services@.len() == self@.len(),
    {
        let n = self.entries.len();
        let mut services: Vec<GetServiceResponse> = Vec::new();
        let mut i: usize = 0;
        while i < n
            invariant
                n == self@.len(),
                i <= n,
                services@.len() == i,
                forall|j: int| 0 <= j < i ==> #[trigger] services@[j]@ == self@[j].info(),
            decreases n - i,
        {
            let entry = &self.entries[i];
            services.push(GetServiceResponse {
                group: entry.group.clone(),
                name: entry.name.clone(),
                ip: entry.record.addr.0.clone(),
                port: entry.record.addr.1,
            });
            i = i + 1;
        }
        proof {
            assert(services@.map_values(|x: GetServiceResponse| x@) =~= self@.map_values(
                |e: EntryModel| e.info(),
            ));
        }
        ListServiceResponse { services }
    }

    /// The records whose group matches `group` exactly, in the order
    /// `list_service` reports them. An empty group is rejected.
    pub fn list_service_by_group_name(&self, group: String) -> (r: Result<
        ListServiceResponse,
        SvcError,
    >)
        ensures
            group@.len() == 0 ==> r matches Err(SvcError::InvalidArgument),
            group@.len() != 0 ==> (r matches Ok(resp) && resp.services@.map_values(
                |x: GetServiceResponse| x@,
            ) == self@.map_values(|e: EntryModel| e.info()).filter(
                |s: crate::wire::SvcInfo| s.group == group@,
            )),
    {
        if group.as_str().unicode_len() == 0 {
            return Err(SvcError::InvalidArgument);
        }
        let full = self.list_service();
        let ghost fullm = self@.map_values(|e: EntryModel| e.info());
        let ghost pred = |s: crate::wire::SvcInfo| s.group == group@;
        let n = full.services.len();
        let mut services: Vec<GetServiceResponse> = Vec::new();
        let mut i: usize = 0;
        proof {
            reveal(Seq::filter);
            assert(fullm.take(0) =~= Seq::<crate::wire::SvcInfo>::empty());
        }
        while i < n
            invariant
                n == fullm.len(),
                n == full.services@.len(),
                i <= n,
                forall|j: int|
                    0 <= j < n ==> #[trigger] full.services@[j]@ == fullm[j],
                services@.map_values(|x: GetServiceResponse| x@) == fullm.take(i as int).filter(
                    pred,
                ),
                pred == (|s: crate::wire::SvcInfo| s.group == group@),
            decreases n - i,
        {
            let ghost prev = services@.map_values(|x: GetServiceResponse| x@);
            if full.services[i].group == group {
                let entry = &full.services[i];
                services.push(GetServiceResponse {
                    group: entry.group.clone(),
                    name: entry.name.clone(),
                    ip: entry.ip.clone(),
                    port: entry.port,
                });
                proof {
                    assert(services@.map_values(|x: GetServiceResponse| x@) =~= prev.push(
                        fullm[i as int],
                    ));
                }
            }
            proof {
                reveal(Seq::filter);
                assert(fullm.take(i + 1).drop_last() =~= fullm.take(i as int));
                assert(fullm.take(i + 1).last() == fullm[i as int]);
                assert(fullm.take(i + 1).filter(pred) == (if pred(fullm[i as int]) {
                    fullm.take(i as int).filter(pred).push(fullm[i as int])
                } else {
                    fullm.take(i as int).filter(pred)
                }));
                assert(full.services@[i as int]@ == fullm[i as int]);
                assert(pred(fullm[i as int]) == (full.services@[i as int].group@ == group@));
                assert(services@.map_values(|x: GetServiceResponse| x@) == fullm.take(
                    i + 1,
                ).filter(pred));
            }
            i = i + 1;
        }
        proof {
            assert(fullm.take(n as int) =~= fullm);
        }
        Ok(ListServiceResponse { services })
    }

    /// Removes every entry that has gone a full `ttl` without a
    /// refreshing register, and reports the evicted ids in store order.
    /// Deciding and removing happen in one critical section; the
    /// runtime holds the store lock across this whole call.
    pub fn evict_stale(&mut self, ttl: u64, now: u64) -> (evicted: Vec<(String, String)>)
        requires
            old(self).wf(),
        ensures
            final(self).wf(),
            final(self)@ == old(self)@.filter(|e: EntryModel| !is_stale(e, ttl, now)),
            evicted@.map_values(|p: (String, String)| (p.0@, p.1@)) == old(self)@.filter(
                |e: EntryModel| is_stale(e, ttl, now),
            ).map_values(|e: EntryModel| e.key()),
    {
        let ghost keep_pred = |e: EntryModel| !is_stale(e, ttl, now);
        let ghost stale_pred = |e: EntryModel| is_stale(e, ttl, now);
        let n = self.entries.len();
        let mut kept: Vec<RegistryEntry> = Vec::new();
        let mut evicted: Vec<(String, String)> = Vec::new();
        let mut i: usize = 0;
        proof {
            reveal(Seq::filter);
            assert(self@.take(0) =~= Seq::<EntryModel>::empty());
        }
        while i < n
            invariant
                n == self@.len(),
                i <= n,
                kept@.map_values(|x: RegistryEntry| x@) == self@.take(i as int).filter(keep_pred),
                evicted@.map_values(|p: (String, String)| (p.0@, p.1@)) == self@.take(
                    i as int,
                ).filter(stale_pred).map_values(|e: EntryModel| e.key()),
                keep_pred == (|e: EntryModel| !is_stale(e, ttl, now)),
                stale_pred == (|e: EntryModel| is_stale(e, ttl, now)),
            decreases n - i,
        {
            let ghost prev_kept = kept@.map_values(|x: RegistryEntry| x@);
            let ghost prev_ev = evicted@.map_values(|p: (String, String)| (p.0@, p.1@));
            let entry = &self.entries[i];
            let stale_now = now >= entry.record.last_updated && now - entry.record.last_updated
                >= ttl;
            proof {
                assert(stale_now == is_stale(self@[i as int], ttl, now));
            }
            if stale_now {
                evicted.push((entry.group.clone(), entry.name.clone()));
                proof {
                    assert(evicted@.map_values(|p: (String, String)| (p.0@, p.1@)) =~= prev_ev.push(
                        self@[i as int].key(),
                    ));
                }
            } else {
                kept.push(
                    RegistryEntry {
                        group: entry.group.clone(),
                        name: entry.name.clone(),
                        record: ServiceRecord {
                            addr: (entry.record.addr.0.clone(), entry.record.addr.1),
                            last_updated: entry.record.last_updated,
                        },
                    },
                );
                proof {
                    assert(kept@.map_values(|x: RegistryEntry| x@) =~= prev_kept.push(
                        self@[i as int],
                    ));
                }
            }
            proof {
                reveal(Seq::filter);
                assert(self@.take(i + 1).drop_last() =~= self@.take(i as int));
                assert(self@.take(i + 1).last() == self@[i as int]);
                assert(kept@.map_values(|x: RegistryEntry| x@) == self@.take(i + 1).filter(
                    keep_pred,
                ));
                assert(self@.take(i + 1).filter(stale_pred) == (if stale_pred(self@[i as int]) {
                    self@.take(i as int).filter(stale_pred).push(self@[i as int])
                } else {
                    self@.take(i as int).filter(stale_pred)
                }));
                assert(evicted@.map_values(|p: (String, String)| (p.0@, p.1@)) =~= self@.take(
                    i + 1,
                ).filter(stale_pred).map_values(|e: EntryModel| e.key()));
            }
            i = i + 1;
        }
        proof {
            assert(self@.take(n as int) =~= self@);
            lemma_filter_distinct(self@, keep_pred);
        }
        self.entries = kept;
        evicted
    }

    /// How many entries the store holds.
    pub fn len(&self) -> (n: usize)
        ensures
            n == self@.len(),
    {
        self.entries.len()
    }
}

/// What one reaper pass found: an empty store, all services still
/// alive, or the ids it evicted.
#[derive(Debug)]
pub enum HeartbeatReport {
    NoServices,
    AllAlive { count: usize },
    Evicted { ids: Vec<(String, String)> },
}

impl SerDictImpl {
    /// One pass of the heartbeat reaper: evicts every entry older than
    /// `HEARTBEAT_INTERVAL` and summarises what happened.
    pub fn heartbeat_pass(&mut self, now: u64) -> (r: HeartbeatReport)
        requires
            old(self).wf(),
        ensures
            final(self).wf(),
            old(self)@.len() == 0 ==> (r is NoServices && final(self)@ == old(self)@),
            ({
                let stale = old(self)@.filter(
                    |e: EntryModel| is_stale(e, crate::HEARTBEAT_INTERVAL, now),
                );
                &&& (old(self)@.len() != 0 && stale.len() == 0) ==> (r matches
                    HeartbeatReport::AllAlive { count } && count == old(self)@.len()
                    && final(self)@ == old(self)@)
                &&& (old(self)@.len() != 0 && stale.len() != 0) ==> (r matches
                    HeartbeatReport::Evicted { ids } && ids@.map_values(
                    |p: (String, String)| (p.0@, p.1@),
                ) == stale.map_values(|e: EntryModel| e.key())
                    && final(self)@ == old(self)@.filter(
                        |e: EntryModel| !is_stale(e, crate::HEARTBEAT_INTERVAL, now),
                    ))
            }),
    {
        let ghost stale_pred = |e: EntryModel| is_stale(e, crate::HEARTBEAT_INTERVAL, now);
        let ghost keep_pred = |e: EntryModel| !is_stale(e, crate::HEARTBEAT_INTERVAL, now);
        let count = self.entries.len();
        if count == 0 {
            return HeartbeatReport::NoServices;
        }
        let ids = self.evict_stale(crate::HEARTBEAT_INTERVAL, now);
        if ids.len() == 0 {
            proof {
                let s = old(self)@;
                assert(s.filter(stale_pred).len() == s.filter(stale_pred).map_values(
                    |e: EntryModel| e.key(),
                ).len());
                assert forall|i: int| 0 <= i < s.len() implies keep_pred(#[trigger] s[i]) by {
                    if stale_pred(s[i]) {
                        s.lemma_filter_contains(stale_pred, i);
                    }
                }
                lemma_filter_all(s, keep_pred);
            }
            HeartbeatReport::AllAlive { count }
        } else {
            proof {
                assert(old(self)@.filter(stale_pred).map_values(
                    |e: EntryModel| e.key(),
                ).len() != 0);
            }
            HeartbeatReport::Evicted { ids }
        }
    }
}

} // verus!
