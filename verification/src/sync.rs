//! Shared values, semaphores and channels between tasks, addressed by
//! numeric handles. The registry holds the state; each operation is a step
//! on it. A task that would have to wait is answered at once: a semaphore
//! acquire or a receive with a timeout fails, since no other task can act
//! on the registry during the call, and one without a timeout is told to
//! wait (`MustWait`) and ask again once another task has acted.
use vstd::prelude::*;
use std::collections::HashMap;

verus! {

/// A value shared between tasks: a number (by its numeral), a text, a
/// boolean, null, or a list or object of shared values.
#[derive(Debug)]
pub enum Shared {
    Number(String),
    Text(String),
    Boolean(bool),
    Null,
    List(Vec<Shared>),
    Object(Vec<(String, Shared)>),
}

/// The mathematical view of a [`Shared`] value.
pub enum SShared {
    Number(Seq<char>),
    Text(Seq<char>),
    Boolean(bool),
    Null,
    List(Seq<SShared>),
    Object(Seq<(Seq<char>, SShared)>),
}

impl Shared {
    pub open spec fn sv(&self) -> SShared
        decreases self,
    {
        match self {
            Shared::Number(n) => SShared::Number(n@),
            Shared::Text(t) => SShared::Text(t@),
            Shared::Boolean(b) => SShared::Boolean(*b),
            Shared::Null => SShared::Null,
            Shared::List(v) => SShared::List(Seq::new(v.len() as nat, |i: int| if 0 <= i < v.len() { v[i].sv() } else { SShared::Null })),
            Shared::Object(fs) => SShared::Object(Seq::new(fs.len() as nat, |i: int| if 0 <= i < fs.len() { (fs[i].0@, fs[i].1.sv()) } else { (Seq::empty(), SShared::Null) })),
        }
    }
}

/// The views of shared values.
pub open spec fn shared_view(v: Seq<Shared>) -> Seq<SShared> {
    Seq::new(v.len(), |i: int| v[i].sv())
}

/// The views of the fields of a shared object.
pub open spec fn fields_view(v: Seq<(String, Shared)>) -> Seq<(Seq<char>, SShared)> {
    Seq::new(v.len(), |i: int| (v[i].0@, v[i].1.sv()))
}

proof fn lemma_shared_views(x: Shared)
    ensures
        x matches Shared::List(v) ==> x.sv() == SShared::List(shared_view(v@)),
        x matches Shared::Object(fs) ==> x.sv() == SShared::Object(fields_view(fs@)),
{
    match x {
        Shared::List(v) => { assert(x.sv()->List_0 =~= shared_view(v@)); }
        Shared::Object(fs) => { assert(x.sv()->Object_0 =~= fields_view(fs@)); }
        _ => {}
    }
}

proof fn lemma_shared_push(s: Seq<Shared>, x: Shared)
    ensures
        shared_view(s.push(x)) == shared_view(s).push(x.sv()),
{
    assert(shared_view(s.push(x)) =~= shared_view(s).push(x.sv()));
}

proof fn lemma_fields_push(s: Seq<(String, Shared)>, x: (String, Shared))
    ensures
        fields_view(s.push(x)) == fields_view(s).push((x.0@, x.1.sv())),
{
    assert(fields_view(s.push(x)) =~= fields_view(s).push((x.0@, x.1.sv())));
}

/// A copy of a shared value.
pub fn copy_shared(x: &Shared) -> (r: Shared)
    ensures
        r.sv() == x.sv(),
    decreases x, 1int,
{
    match x {
        Shared::Number(n) => Shared::Number(n.clone()),
        Shared::Text(t) => Shared::Text(t.clone()),
        Shared::Boolean(b) => Shared::Boolean(*b),
        Shared::Null => Shared::Null,
        Shared::List(v) => {
            proof { lemma_shared_views(*x); }
            let c = copy_list(v);
            proof { lemma_shared_views(Shared::List(c)); }
            Shared::List(c)
        }
        Shared::Object(fs) => {
            proof { lemma_shared_views(*x); }
            let c = copy_fields(fs);
            proof { lemma_shared_views(Shared::Object(c)); }
            Shared::Object(c)
        }
    }
}

fn copy_list(v: &Vec<Shared>) -> (r: Vec<Shared>)
    ensures
        shared_view(r@) == shared_view(v@),
    decreases v, 0int,
{
    let mut out: Vec<Shared> = Vec::new();
    let mut i: usize = 0;
    while i < v.len()
        invariant
            i <= v.len(),
            shared_view(out@) == shared_view(v@).take(i as int),
        decreases v.len() - i,
    {
        let c = copy_shared(&v[i]);
        proof {
            lemma_shared_push(out@, c);
        }
        out.push(c);
        assert(shared_view(out@) =~= shared_view(v@).take(i + 1));
        i += 1;
    }
    assert(shared_view(v@).take(i as int) =~= shared_view(v@));
    out
}

fn copy_fields(v: &Vec<(String, Shared)>) -> (r: Vec<(String, Shared)>)
    ensures
        fields_view(r@) == fields_view(v@),
    decreases v, 0int,
{
    let mut out: Vec<(String, Shared)> = Vec::new();
    let mut i: usize = 0;
    while i < v.len()
        invariant
            i <= v.len(),
            fields_view(out@) == fields_view(v@).take(i as int),
        decreases v.len() - i,
    {
        let k = v[i].0.clone();
        let c = copy_shared(&v[i].1);
        proof {
            lemma_fields_push(out@, (k, c));
        }
        out.push((k, c));
        assert(fields_view(out@) =~= fields_view(v@).take(i + 1));
        i += 1;
    }
    assert(fields_view(v@).take(i as int) =~= fields_view(v@));
    out
}

/// A counting semaphore.
pub struct Semaphore {
    count: i64,
}

impl Semaphore {
    /// The permits available.
    pub closed spec fn permits(&self) -> int {
        self.count as int
    }

    pub fn new(count: i64) -> (r: Self)
        ensures
            r.permits() == count,
    {
        Semaphore { count }
    }

    /// Takes a permit if one is available (`Some(true)`). Without a permit,
    /// a request with a timeout gets `Some(false)`: the caller holds the
    /// semaphore for the whole call, so no release can come while it
    /// waits; a request without a timeout gets `None`: it has to wait for
    /// a release and ask again.
    pub fn acquire(&mut self, timeout_ms: Option<u64>) -> (r: Option<bool>)
        ensures
            r == (if old(self).permits() > 0 { Some(true) } else if timeout_ms is Some { Some(false) } else { None::<bool> }),
            final(self).permits() == if r == Some(true) { old(self).permits() - 1 } else { old(self).permits() },
    {
        if self.count > 0 {
            self.count = self.count - 1;
            Some(true)
        } else if timeout_ms.is_some() {
            Some(false)
        } else {
            None
        }
    }

    /// Gives a permit back.
    pub fn release(&mut self)
        requires
            old(self).permits() < i64::MAX,
        ensures
            final(self).permits() == old(self).permits() + 1,
    {
        self.count = self.count + 1;
    }
}

/// A channel: the values sent and not yet received, oldest first.
pub struct Channel {
    queue: Vec<Shared>,
}

/// Why a registry operation failed.
#[derive(Debug)]
pub enum SyncError {
    NoMutex(u64),
    NoSemaphore(u64),
    NoChannel(u64),
    /// A receive with a timeout found nothing to receive.
    Timeout(u64),
    /// The request has to wait, with no timeout, for another task: a
    /// release of the semaphore or a send on the channel with this handle.
    MustWait(u64),
}

/// The shared state of the runtime: mutex cells, semaphores and channels,
/// each by handle, and the next handle to give out.
pub struct Registry {
    next_handle: u64,
    values: HashMap<u64, Shared>,
    semaphores: HashMap<u64, Semaphore>,
    channels: HashMap<u64, Channel>,
}

impl Registry {
    /// The next handle to give out.
    pub closed spec fn next(&self) -> u64 {
        self.next_handle
    }

    /// The mutex cells by handle.
    pub closed spec fn cells(&self) -> Map<u64, SShared> {
        self.values@.map_values(|v: Shared| v.sv())
    }

    /// The permits of the semaphores by handle.
    pub closed spec fn permits(&self) -> Map<u64, int> {
        self.semaphores@.map_values(|s: Semaphore| s.permits())
    }

    /// The pending values of the open channels by handle.
    pub closed spec fn channels(&self) -> Map<u64, Seq<SShared>> {
        self.channels@.map_values(|c: Channel| shared_view(c.queue@))
    }

    pub fn new() -> (r: Self)
        ensures
            r.next() == 1,
            r.cells() == Map::<u64, SShared>::empty(),
            r.permits() == Map::<u64, int>::empty(),
            r.channels() == Map::<u64, Seq<SShared>>::empty(),
    {
        let r = Registry { next_handle: 1, values: HashMap::new(), semaphores: HashMap::new(), channels: HashMap::new() };
        assert(r.cells() =~= Map::<u64, SShared>::empty());
        assert(r.permits() =~= Map::<u64, int>::empty());
        assert(r.channels() =~= Map::<u64, Seq<SShared>>::empty());
        r
    }
}

/// A fresh handle: the registry's counter, which then moves on by one
/// (wrapping).
pub fn handle(reg: &mut Registry) -> (r: u64)
    ensures
        r == old(reg).next(),
        final(reg).next() == (if old(reg).next() == u64::MAX { 0 } else { old(reg).next() + 1 }),
        final(reg).cells() == old(reg).cells(),
        final(reg).permits() == old(reg).permits(),
        final(reg).channels() == old(reg).channels(),
{
    let id = reg.next_handle;
    reg.next_handle = reg.next_handle.wrapping_add(1);
    id
}

/// A new mutex cell holding `value`.
pub fn mutex_new(reg: &mut Registry, value: Shared) -> (r: u64)
    ensures
        r == old(reg).next(),
        final(reg).next() == (if old(reg).next() == u64::MAX { 0 } else { old(reg).next() + 1 }),
        final(reg).cells() == old(reg).cells().insert(r, value.sv()),
        final(reg).permits() == old(reg).permits(),
        final(reg).channels() == old(reg).channels(),
{
    broadcast use vstd::std_specs::hash::group_hash_axioms;
    let id = handle(reg);
    let ghost vv = value.sv();
    reg.values.insert(id, value);
    assert(reg.cells() =~= old(reg).cells().insert(id, vv));
    id
}

/// The value in a mutex cell.
pub fn mutex_get(reg: &Registry, id: u64) -> (r: Result<Shared, SyncError>)
    ensures
        match r {
            Ok(v) => reg.cells().contains_key(id) && v.sv() == reg.cells()[id],
            Err(e) => !reg.cells().contains_key(id) && e == SyncError::NoMutex(id),
        },
{
    broadcast use vstd::std_specs::hash::group_hash_axioms;
    match reg.values.get(&id) {
        Some(v) => Ok(copy_shared(v)),
        None => Err(SyncError::NoMutex(id)),
    }
}

/// Replaces the value in a mutex cell, giving the previous one.
pub fn mutex_swap(reg: &mut Registry, id: u64, value: Shared) -> (r: Result<Shared, SyncError>)
    ensures
        final(reg).next() == old(reg).next(),
        final(reg).permits() == old(reg).permits(),
        final(reg).channels() == old(reg).channels(),
        match r {
            Ok(v) => old(reg).cells().contains_key(id) && v.sv() == old(reg).cells()[id]
                && final(reg).cells() == old(reg).cells().insert(id, value.sv()),
            Err(e) => !old(reg).cells().contains_key(id) && e == SyncError::NoMutex(id)
                && final(reg).cells() == old(reg).cells(),
        },
{
    broadcast use vstd::std_specs::hash::group_hash_axioms;
    if !reg.values.contains_key(&id) {
        return Err(SyncError::NoMutex(id));
    }
    let ghost vv = value.sv();
    match reg.values.insert(id, value) {
        Some(previous) => {
            assert(reg.cells() =~= old(reg).cells().insert(id, vv));
            Ok(previous)
        }
        None => Err(SyncError::NoMutex(id)),
    }
}

/// Replaces the value in a mutex cell.
pub fn mutex_set(reg: &mut Registry, id: u64, value: Shared) -> (r: Result<(), SyncError>)
    ensures
        final(reg).next() == old(reg).next(),
        final(reg).permits() == old(reg).permits(),
        final(reg).channels() == old(reg).channels(),
        match r {
            Ok(()) => old(reg).cells().contains_key(id) && final(reg).cells() == old(reg).cells().insert(id, value.sv()),
            Err(e) => !old(reg).cells().contains_key(id) && e == SyncError::NoMutex(id)
                && final(reg).cells() == old(reg).cells(),
        },
{
    match mutex_swap(reg, id, value) {
        Ok(_) => Ok(()),
        Err(e) => Err(e),
    }
}

/// Removes a mutex cell; whether there was one.
pub fn sync_remove(reg: &mut Registry, id: u64) -> (r: bool)
    ensures
        r == old(reg).cells().contains_key(id),
        final(reg).cells() == old(reg).cells().remove(id),
        final(reg).next() == old(reg).next(),
        final(reg).permits() == old(reg).permits(),
        final(reg).channels() == old(reg).channels(),
{
    broadcast use vstd::std_specs::hash::group_hash_axioms;
    let removed = reg.values.remove(&id);
    assert(reg.cells() =~= old(reg).cells().remove(id));
    removed.is_some()
}

/// A new semaphore with `count` permits (reinterpreted as a signed count).
pub fn semaphore_new(reg: &mut Registry, count: u64) -> (r: u64)
    ensures
        r == old(reg).next(),
        final(reg).next() == (if old(reg).next() == u64::MAX { 0 } else { old(reg).next() + 1 }),
        final(reg).permits() == old(reg).permits().insert(r, (count as i64) as int),
        final(reg).cells() == old(reg).cells(),
        final(reg).channels() == old(reg).channels(),
{
    broadcast use vstd::std_specs::hash::group_hash_axioms;
    let id = handle(reg);
    reg.semaphores.insert(id, Semaphore::new(count as i64));
    assert(reg.permits() =~= old(reg).permits().insert(id, (count as i64) as int));
    id
}

/// Takes a permit of a semaphore: `true` if one was available; without one,
/// a request with a timeout gets `false`, and one without a timeout is told
/// to wait for a release (`MustWait`).
pub fn semaphore_acquire(reg: &mut Registry, id: u64, timeout_ms: Option<u64>) -> (r: Result<bool, SyncError>)
    ensures
        final(reg).next() == old(reg).next(),
        final(reg).cells() == old(reg).cells(),
        final(reg).channels() == old(reg).channels(),
        match r {
            Ok(granted) => old(reg).permits().contains_key(id)
                && (old(reg).permits()[id] > 0 || timeout_ms is Some)
                && granted == (old(reg).permits()[id] > 0)
                && final(reg).permits() == if granted { old(reg).permits().insert(id, old(reg).permits()[id] - 1) } else { old(reg).permits() },
            Err(SyncError::MustWait(k)) => k == id && old(reg).permits().contains_key(id)
                && old(reg).permits()[id] <= 0 && timeout_ms is None
                && final(reg).permits() == old(reg).permits(),
            Err(e) => !old(reg).permits().contains_key(id) && e == SyncError::NoSemaphore(id)
                && final(reg).permits() == old(reg).permits(),
        },
{
    broadcast use vstd::std_specs::hash::group_hash_axioms;
    match reg.semaphores.remove(&id) {
        Some(s) => {
            let mut s = s;
            let answer = s.acquire(timeout_ms);
            reg.semaphores.insert(id, s);
            if answer == Some(true) {
                assert(reg.permits() =~= old(reg).permits().insert(id, old(reg).permits()[id] - 1));
            } else {
                assert(reg.permits() =~= old(reg).permits());
            }
            match answer {
                Some(granted) => Ok(granted),
                None => Err(SyncError::MustWait(id)),
            }
        }
        None => {
            assert(reg.permits() =~= old(reg).permits());
            Err(SyncError::NoSemaphore(id))
        }
    }
}

/// Gives a permit back to a semaphore.
pub fn semaphore_release(reg: &mut Registry, id: u64) -> (r: Result<(), SyncError>)
    requires
        old(reg).permits().contains_key(id) ==> old(reg).permits()[id] < i64::MAX,
    ensures
        final(reg).next() == old(reg).next(),
        final(reg).cells() == old(reg).cells(),
        final(reg).channels() == old(reg).channels(),
        match r {
            Ok(()) => old(reg).permits().contains_key(id)
                && final(reg).permits() == old(reg).permits().insert(id, old(reg).permits()[id] + 1),
            Err(e) => !old(reg).permits().contains_key(id) && e == SyncError::NoSemaphore(id)
                && final(reg).permits() == old(reg).permits(),
        },
{
    broadcast use vstd::std_specs::hash::group_hash_axioms;
    match reg.semaphores.remove(&id) {
        Some(s) => {
            let mut s = s;
            assert(s.permits() == old(reg).permits()[id]);
            s.release();
            reg.semaphores.insert(id, s);
            assert(reg.permits() =~= old(reg).permits().insert(id, old(reg).permits()[id] + 1));
            Ok(())
        }
        None => {
            assert(reg.permits() =~= old(reg).permits());
            Err(SyncError::NoSemaphore(id))
        }
    }
}

/// Removes a semaphore; whether there was one.
pub fn semaphore_remove(reg: &mut Registry, id: u64) -> (r: bool)
    ensures
        r == old(reg).permits().contains_key(id),
        final(reg).permits() == old(reg).permits().remove(id),
        final(reg).next() == old(reg).next(),
        final(reg).cells() == old(reg).cells(),
        final(reg).channels() == old(reg).channels(),
{
    broadcast use vstd::std_specs::hash::group_hash_axioms;
    let removed = reg.semaphores.remove(&id);
    assert(reg.permits() =~= old(reg).permits().remove(id));
    removed.is_some()
}

/// A new, empty channel.
pub fn channel_new(reg: &mut Registry) -> (r: u64)
    ensures
        r == old(reg).next(),
        final(reg).next() == (if old(reg).next() == u64::MAX { 0 } else { old(reg).next() + 1 }),
        final(reg).channels() == old(reg).channels().insert(r, Seq::empty()),
        final(reg).cells() == old(reg).cells(),
        final(reg).permits() == old(reg).permits(),
{
    broadcast use vstd::std_specs::hash::group_hash_axioms;
    let id = handle(reg);
    reg.channels.insert(id, Channel { queue: Vec::new() });
    assert(shared_view(Seq::<Shared>::empty()) =~= Seq::<SShared>::empty());
    assert(reg.channels() =~= old(reg).channels().insert(id, Seq::empty()));
    id
}

/// Sends a value on an open channel.
pub fn channel_send(reg: &mut Registry, id: u64, value: Shared) -> (r: Result<(), SyncError>)
    ensures
        final(reg).next() == old(reg).next(),
        final(reg).cells() == old(reg).cells(),
        final(reg).permits() == old(reg).permits(),
        match r {
            Ok(()) => old(reg).channels().contains_key(id)
                && final(reg).channels() == old(reg).channels().insert(id, old(reg).channels()[id].push(value.sv())),
            Err(e) => !old(reg).channels().contains_key(id) && e == SyncError::NoChannel(id)
                && final(reg).channels() == old(reg).channels(),
        },
{
    broadcast use vstd::std_specs::hash::group_hash_axioms;
    match reg.channels.remove(&id) {
        Some(c) => {
            let mut c = c;
            let ghost vv = value.sv();
            let ghost q0 = c.queue@;
            c.queue.push(value);
            assert(shared_view(c.queue@) =~= shared_view(q0).push(vv));
            reg.channels.insert(id, c);
            assert(reg.channels() =~= old(reg).channels().insert(id, old(reg).channels()[id].push(vv)));
            Ok(())
        }
        None => {
            assert(reg.channels() =~= old(reg).channels());
            Err(SyncError::NoChannel(id))
        }
    }
}

/// Takes the oldest pending value of a channel, if any.
pub fn channel_try_recv(reg: &mut Registry, id: u64) -> (r: Result<Option<Shared>, SyncError>)
    ensures
        final(reg).next() == old(reg).next(),
        final(reg).cells() == old(reg).cells(),
        final(reg).permits() == old(reg).permits(),
        match r {
            Ok(None) => old(reg).channels().contains_key(id) && old(reg).channels()[id].len() == 0
                && final(reg).channels() == old(reg).channels(),
            Ok(Some(v)) => old(reg).channels().contains_key(id) && old(reg).channels()[id].len() > 0
                && v.sv() == old(reg).channels()[id][0]
                && final(reg).channels() == old(reg).channels().insert(id, old(reg).channels()[id].drop_first()),
            Err(e) => !old(reg).channels().contains_key(id) && e == SyncError::NoChannel(id)
                && final(reg).channels() == old(reg).channels(),
        },
{
    broadcast use vstd::std_specs::hash::group_hash_axioms;
    match reg.channels.remove(&id) {
        Some(c) => {
            let mut c = c;
            let ghost q0 = c.queue@;
            if c.queue.len() == 0 {
                reg.channels.insert(id, c);
                assert(reg.channels() =~= old(reg).channels());
                return Ok(None);
            }
            let v = c.queue.remove(0);
            assert(shared_view(c.queue@) =~= shared_view(q0).drop_first());
            reg.channels.insert(id, c);
            assert(reg.channels() =~= old(reg).channels().insert(id, old(reg).channels()[id].drop_first()));
            Ok(Some(v))
        }
        None => {
            assert(reg.channels() =~= old(reg).channels());
            Err(SyncError::NoChannel(id))
        }
    }
}

/// Receives the oldest pending value of a channel. With nothing pending, a
/// receive with a timeout fails with `Timeout`, and one without a timeout
/// is told to wait for a send (`MustWait`).
pub fn channel_recv(reg: &mut Registry, id: u64, timeout_ms: Option<u64>) -> (r: Result<Shared, SyncError>)
    ensures
        final(reg).next() == old(reg).next(),
        final(reg).cells() == old(reg).cells(),
        final(reg).permits() == old(reg).permits(),
        match r {
            Ok(v) => old(reg).channels().contains_key(id) && old(reg).channels()[id].len() > 0
                && v.sv() == old(reg).channels()[id][0]
                && final(reg).channels() == old(reg).channels().insert(id, old(reg).channels()[id].drop_first()),
            Err(SyncError::Timeout(k)) => k == id && old(reg).channels().contains_key(id)
                && old(reg).channels()[id].len() == 0 && timeout_ms is Some
                && final(reg).channels() == old(reg).channels(),
            Err(SyncError::MustWait(k)) => k == id && old(reg).channels().contains_key(id)
                && old(reg).channels()[id].len() == 0 && timeout_ms is None
                && final(reg).channels() == old(reg).channels(),
            Err(e) => !old(reg).channels().contains_key(id) && e == SyncError::NoChannel(id)
                && final(reg).channels() == old(reg).channels(),
        },
{
    match channel_try_recv(reg, id) {
        Ok(Some(v)) => Ok(v),
        Ok(None) => if timeout_ms.is_some() { Err(SyncError::Timeout(id)) } else { Err(SyncError::MustWait(id)) },
        Err(e) => Err(e),
    }
}

/// Closes a channel: its handle and pending values are dropped.
pub fn channel_close(reg: &mut Registry, id: u64)
    ensures
        final(reg).channels() == old(reg).channels().remove(id),
        final(reg).next() == old(reg).next(),
        final(reg).cells() == old(reg).cells(),
        final(reg).permits() == old(reg).permits(),
{
    broadcast use vstd::std_specs::hash::group_hash_axioms;
    let _ = reg.channels.remove(&id);
    assert(reg.channels() =~= old(reg).channels().remove(id));
}

/// What a mutex cell is set to is what it then holds; the other cells
/// keep theirs.
pub proof fn law_mutex_set_then_get(cells: Map<u64, SShared>, id: u64, v: SShared, other: u64)
    requires
        cells.contains_key(id),
        other != id,
    ensures
        cells.insert(id, v).contains_key(id),
        cells.insert(id, v)[id] == v,
        cells.insert(id, v).contains_key(other) == cells.contains_key(other),
        cells.contains_key(other) ==> cells.insert(id, v)[other] == cells[other],
{
}

/// Values leave a channel in the order they were sent: two values sent to
/// an empty channel are received first the one, then the other, and the
/// channel is empty again.
pub proof fn law_channel_fifo(q: Seq<SShared>, a: SShared, b: SShared)
    requires
        q.len() == 0,
    ensures
        q.push(a).push(b).len() > 0,
        q.push(a).push(b)[0] == a,
        q.push(a).push(b).drop_first().len() > 0,
        q.push(a).push(b).drop_first()[0] == b,
        q.push(a).push(b).drop_first().drop_first().len() == 0,
{
}

/// A permit released to a semaphore can be taken at once: after a release
/// the semaphore has a permit, and taking it gives back the count from
/// before the release.
pub proof fn law_release_then_acquire(permits: Map<u64, int>, id: u64)
    requires
        permits.contains_key(id),
        permits[id] >= 0,
    ensures
        permits.insert(id, permits[id] + 1)[id] > 0,
        permits.insert(id, permits[id] + 1).insert(id, permits.insert(id, permits[id] + 1)[id] - 1) == permits,
{
    assert(permits.insert(id, permits[id] + 1).insert(id, permits.insert(id, permits[id] + 1)[id] - 1) =~= permits);
}

} // verus!
