//! The device buffer cache: freed device allocations below a size threshold
//! are kept per (device, byte size) and handed out again instead of asking
//! the driver for new memory.
use vstd::prelude::*;
use crate::Error;

verus! {

/// Buffers of this many bytes or more go back to the driver when released.
pub const HUGE_BUFFER_SIZE: usize = 1 << 28;

/// The free addresses of one (device, byte size) class.
pub struct CachePool {
    pub device: i32,
    pub size: usize,
    pub addrs: Vec<usize>,
}

/// A cache of free device buffers, keyed by device and byte size.
pub struct BufferCache {
    pools: Vec<CachePool>,
}

/// What becomes of a released buffer.
#[derive(Clone, Copy, Debug, PartialEq, Eq, Structural)]
pub enum ReleaseAction {
    /// The address was kept in the cache for reuse.
    Cached,
    /// The buffer is too large to keep: free it on the device.
    FreeOnDevice,
}

impl BufferCache {
    /// The free addresses of `(device, size)`, in the order they were released.
    pub closed spec fn free_at(&self, device: i32, size: usize) -> Seq<usize> {
        if exists|i: int|
            0 <= i < self.pools@.len() && #[trigger] self.pools@[i].device == device
                && self.pools@[i].size == size {
            let i = choose|i: int|
                0 <= i < self.pools@.len() && #[trigger] self.pools@[i].device == device
                    && self.pools@[i].size == size;
            self.pools@[i].addrs@
        } else {
            seq![]
        }
    }

    /// One pool per class, and no address twice in a pool.
    pub closed spec fn wf(&self) -> bool {
        &&& forall|i: int, j: int|
            0 <= i < self.pools@.len() && 0 <= j < self.pools@.len() && i != j ==> (
            #[trigger] self.pools@[i].device != #[trigger] self.pools@[j].device
                || self.pools@[i].size != self.pools@[j].size)
        &&& forall|i: int| 0 <= i < self.pools@.len() ==> #[trigger] self.pools@[i].addrs@.no_duplicates()
    }

    proof fn lemma_free_at(&self, i: int)
        requires
            self.wf(),
            0 <= i < self.pools@.len(),
        ensures
            self.free_at(self.pools@[i].device, self.pools@[i].size) == self.pools@[i].addrs@,
    {
        let d = self.pools@[i].device;
        let s = self.pools@[i].size;
        assert(self.pools@[i].device == d);
        let k = choose|k: int|
            0 <= k < self.pools@.len() && #[trigger] self.pools@[k].device == d
                && self.pools@[k].size == s;
        assert(k == i);
    }

    proof fn lemma_free_at_missing(&self, device: i32, size: usize)
        requires
            forall|i: int|
                0 <= i < self.pools@.len() ==> !(#[trigger] self.pools@[i].device == device
                    && self.pools@[i].size == size),
        ensures
            self.free_at(device, size) == Seq::<usize>::empty(),
    {
    }

    /// Every class's free addresses are distinct.
    pub proof fn lemma_no_duplicates(&self, device: i32, size: usize)
        requires
            self.wf(),
        ensures
            self.free_at(device, size).no_duplicates(),
    {
        if exists|i: int|
            0 <= i < self.pools@.len() && #[trigger] self.pools@[i].device == device
                && self.pools@[i].size == size {
            let i = choose|i: int|
                0 <= i < self.pools@.len() && #[trigger] self.pools@[i].device == device
                    && self.pools@[i].size == size;
            self.lemma_free_at(i);
        }
    }

    pub fn new() -> (r: BufferCache)
        ensures
            r.wf(),
            forall|d: i32, s: usize| #[trigger] r.free_at(d, s) == Seq::<usize>::empty(),
    {
        BufferCache { pools: Vec::new() }
    }

    /// The position of the pool of `(device, size)`, if there is one.
    fn find(&self, device: i32, size: usize) -> (r: Option<usize>)
        ensures
            match r {
                Some(i) => i < self.pools@.len() && self.pools@[i as int].device == device
                    && self.pools@[i as int].size == size,
                None => forall|i: int|
                    0 <= i < self.pools@.len() ==> !(#[trigger] self.pools@[i].device == device
                        && self.pools@[i].size == size),
            },
    {
        let mut i: usize = 0;
        while i < self.pools.len()
            invariant
                i <= self.pools@.len(),
                forall|j: int|
                    0 <= j < i ==> !(#[trigger] self.pools@[j].device == device
                        && self.pools@[j].size == size),
            decreases self.pools@.len() - i,
        {
            if self.pools[i].device == device && self.pools[i].size == size {
                return Some(i);
            }
            i += 1;
        }
        None
    }

    /// Takes a free buffer of `size` bytes on `device` from the cache: the one
    /// released last, or `None` when the class has none and the device must
    /// allocate.
    pub fn take(&mut self, device: i32, size: usize) -> (r: Option<usize>)
        requires
            old(self).wf(),
        ensures
            final(self).wf(),
            took(&*old(self), &*final(self), device, size, r),
    {
        match self.find(device, size) {
            Some(i) => {
                proof {
                    self.lemma_free_at(i as int);
                }
                let ghost before = *self;
                let mut pool = self.pools.remove(i);
                let r = pool.addrs.pop();
                let ghost p = pool;
                self.pools.insert(i, pool);
                proof {
                    let old_addrs = before.pools@[i as int].addrs@;
                    assert(old_addrs.no_duplicates());
                    assert(self.pools@ =~= before.pools@.update(i as int, p));
                    if old_addrs.len() > 0 {
                        assert(p.addrs@ =~= old_addrs.drop_last());
                    } else {
                        assert(p.addrs@ =~= old_addrs);
                    }
                    assert(p.addrs@.no_duplicates()) by {
                        assert forall|a: int, b: int|
                            0 <= a < p.addrs@.len() && 0 <= b < p.addrs@.len() && a != b implies p.addrs@[a]
                            != p.addrs@[b] by {
                            assert(p.addrs@[a] == old_addrs[a]);
                            assert(p.addrs@[b] == old_addrs[b]);
                        }
                    }
                    assert forall|j: int| 0 <= j < self.pools@.len() implies #[trigger] self.pools@[j].addrs@.no_duplicates() by {
                        if j == i {
                            assert(self.pools@[j] == p);
                        } else {
                            assert(self.pools@[j] == before.pools@[j]);
                            assert(before.pools@[j].addrs@.no_duplicates());
                        }
                    }
                    self.lemma_free_at(i as int);
                    assert forall|d: i32, s: usize|
                        !(d == device && s == size) implies #[trigger] self.free_at(d, s)
                        == before.free_at(d, s) by {
                        if exists|j: int|
                            0 <= j < self.pools@.len() && #[trigger] self.pools@[j].device == d
                                && self.pools@[j].size == s {
                            let j = choose|j: int|
                                0 <= j < self.pools@.len() && #[trigger] self.pools@[j].device == d
                                    && self.pools@[j].size == s;
                            self.lemma_free_at(j);
                            before.lemma_free_at(j);
                        } else {
                            assert forall|j: int| 0 <= j < before.pools@.len() implies !(
                            #[trigger] before.pools@[j].device == d && before.pools@[j].size == s) by {
                                assert(self.pools@[j].device == before.pools@[j].device);
                            }
                        }
                    }
                }
                r
            },
            None => {
                proof {
                    self.lemma_free_at_missing(device, size);
                }
                None
            },
        }
    }

    /// Releases a buffer of `size` bytes at `addr` on `device`: below
    /// `HUGE_BUFFER_SIZE` it is kept for reuse, larger ones are to be freed on
    /// the device. An address that the cache already holds is refused.
    pub fn release(&mut self, device: i32, size: usize, addr: usize) -> (r: Result<
        ReleaseAction,
        Error,
    >)
        requires
            old(self).wf(),
        ensures
            final(self).wf(),
            released(&*old(self), &*final(self), device, size, addr, r),
    {
        if size >= HUGE_BUFFER_SIZE {
            return Ok(ReleaseAction::FreeOnDevice);
        }
        let ghost before = *self;
        match self.find(device, size) {
            Some(i) => {
                proof {
                    self.lemma_free_at(i as int);
                }
                let mut k: usize = 0;
                while k < self.pools[i].addrs.len()
                    invariant
                        i < self.pools@.len(),
                        *self == before,
                        self.wf(),
                        size < HUGE_BUFFER_SIZE,
                        self.free_at(device, size) == self.pools@[i as int].addrs@,
                        k <= self.pools@[i as int].addrs@.len(),
                        forall|j: int| 0 <= j < k ==> #[trigger] self.pools@[i as int].addrs@[j] != addr,
                    decreases self.pools@[i as int].addrs@.len() - k,
                {
                    if self.pools[i].addrs[k] == addr {
                        proof {
                            assert(self.free_at(device, size).contains(addr)) by {
                                assert(self.free_at(device, size)[k as int] == addr);
                            }
                        }
                        return Err(Error::DuplicateCachedBuffer { device, size, addr });
                    }
                    k += 1;
                }
                let ghost old_addrs = self.pools@[i as int].addrs@;
                let mut pool = self.pools.remove(i);
                pool.addrs.push(addr);
                self.pools.insert(i, pool);
                proof {
                    assert(before.pools@[i as int].addrs@.no_duplicates());
                    assert(old_addrs.no_duplicates());
                    assert(!old_addrs.contains(addr)) by {
                        if old_addrs.contains(addr) {
                            let j = choose|j: int| 0 <= j < old_addrs.len() && old_addrs[j] == addr;
                            assert(before.pools@[i as int].addrs@[j] == addr);
                        }
                    }
                    assert forall|j: int| 0 <= j < self.pools@.len() implies #[trigger] self.pools@[j].addrs@.no_duplicates() by {
                        if j == i {
                            let s = self.pools@[j].addrs@;
                            assert(s =~= before.pools@[j].addrs@.push(addr));
                            assert forall|a: int, b: int| 0 <= a < s.len() && 0 <= b < s.len() && a != b implies s[a] != s[b] by {
                                if a < s.len() - 1 && b < s.len() - 1 {
                                    assert(s[a] == before.pools@[j].addrs@[a]);
                                    assert(s[b] == before.pools@[j].addrs@[b]);
                                } else if a < s.len() - 1 {
                                    assert(s[a] == old_addrs[a]);
                                } else if b < s.len() - 1 {
                                    assert(s[b] == old_addrs[b]);
                                }
                            }
                        } else {
                            assert(self.pools@[j] == before.pools@[j]);
                        }
                    }
                    assert forall|j: int| 0 <= j < self.pools@.len() implies self.pools@[j].device
                        == before.pools@[j].device && self.pools@[j].size
                        == before.pools@[j].size by {}
                    self.lemma_free_at(i as int);
                    assert forall|d: i32, s: usize|
                        !(d == device && s == size) implies #[trigger] self.free_at(d, s)
                        == before.free_at(d, s) by {
                        if exists|j: int|
                            0 <= j < self.pools@.len() && #[trigger] self.pools@[j].device == d
                                && self.pools@[j].size == s {
                            let j = choose|j: int|
                                0 <= j < self.pools@.len() && #[trigger] self.pools@[j].device == d
                                    && self.pools@[j].size == s;
                            self.lemma_free_at(j);
                            before.lemma_free_at(j);
                            assert(self.pools@[j] == before.pools@[j]);
                        } else {
                            assert forall|j: int| 0 <= j < before.pools@.len() implies !(
                            #[trigger] before.pools@[j].device == d && before.pools@[j].size == s) by {
                                assert(self.pools@[j].device == before.pools@[j].device);
                            }
                        }
                    }
                    assert(self.pools@[i as int].addrs@ =~= before.pools@[i as int].addrs@.push(addr));
                    assert(!before.free_at(device, size).contains(addr));
                }
                Ok(ReleaseAction::Cached)
            },
            None => {
                proof {
                    self.lemma_free_at_missing(device, size);
                }
                let mut addrs: Vec<usize> = Vec::new();
                addrs.push(addr);
                self.pools.push(CachePool { device, size, addrs });
                proof {
                    assert forall|j: int| 0 <= j < self.pools@.len() implies #[trigger] self.pools@[j].addrs@.no_duplicates() by {
                        if j < before.pools@.len() {
                            assert(self.pools@[j] == before.pools@[j]);
                        }
                    }
                    let n = before.pools@.len() as int;
                    self.lemma_free_at(n);
                    assert(self.pools@[n].addrs@ =~= seq![addr]);
                    assert forall|d: i32, s: usize|
                        !(d == device && s == size) implies #[trigger] self.free_at(d, s)
                        == before.free_at(d, s) by {
                        if exists|j: int|
                            0 <= j < self.pools@.len() && #[trigger] self.pools@[j].device == d
                                && self.pools@[j].size == s {
                            let j = choose|j: int|
                                0 <= j < self.pools@.len() && #[trigger] self.pools@[j].device == d
                                    && self.pools@[j].size == s;
                            self.lemma_free_at(j);
                            assert(j < n);
                            before.lemma_free_at(j);
                            assert(self.pools@[j] == before.pools@[j]);
                        } else {
                            assert forall|j: int| 0 <= j < before.pools@.len() implies !(
                            #[trigger] before.pools@[j].device == d && before.pools@[j].size == s) by {
                                assert(self.pools@[j] == before.pools@[j]);
                            }
                        }
                    }
                    assert(seq![addr] =~= Seq::<usize>::empty().push(addr));
                }
                Ok(ReleaseAction::Cached)
            },
        }
    }
}

/// `take` on `(device, size)` went from `before` to `after` and returned `r`:
/// the last free address of the class, which leaves it, or nothing when the
/// class was empty. Other classes are untouched.
pub open spec fn took(
    before: &BufferCache,
    after: &BufferCache,
    device: i32,
    size: usize,
    r: Option<usize>,
) -> bool {
    &&& forall|d: i32, s: usize|
        !(d == device && s == size) ==> #[trigger] after.free_at(d, s) == before.free_at(d, s)
    &&& if before.free_at(device, size).len() == 0 {
        r is None && after.free_at(device, size) == before.free_at(device, size)
    } else {
        r == Some(before.free_at(device, size).last()) && after.free_at(device, size)
            == before.free_at(device, size).drop_last()
    }
}

/// `release` of `addr` on `(device, size)` went from `before` to `after` with
/// result `r`: a huge buffer is to be freed on the device, an address already
/// free is refused, and any other joins its class. Other classes are untouched.
pub open spec fn released(
    before: &BufferCache,
    after: &BufferCache,
    device: i32,
    size: usize,
    addr: usize,
    r: Result<ReleaseAction, Error>,
) -> bool {
    &&& forall|d: i32, s: usize|
        !(d == device && s == size) ==> #[trigger] after.free_at(d, s) == before.free_at(d, s)
    &&& if size >= HUGE_BUFFER_SIZE {
        r == Ok::<ReleaseAction, Error>(ReleaseAction::FreeOnDevice) && after.free_at(device, size)
            == before.free_at(device, size)
    } else if before.free_at(device, size).contains(addr) {
        r == Err::<ReleaseAction, Error>(Error::DuplicateCachedBuffer { device, size, addr })
            && after.free_at(device, size) == before.free_at(device, size)
    } else {
        r == Ok::<ReleaseAction, Error>(ReleaseAction::Cached) && after.free_at(device, size)
            == before.free_at(device, size).push(addr)
    }
}

} // verus!

verus! {

/// No address of `live` is free in the class `(device, size)`.
pub open spec fn apart(c: &BufferCache, device: i32, size: usize, live: Set<usize>) -> bool {
    forall|a: usize| live.contains(a) ==> !#[trigger] c.free_at(device, size).contains(a)
}

/// Taking from the cache never hands out a buffer that is still held: when
/// the held addresses `live` are apart from the free ones, `take` returns an
/// address outside `live`, so holding it adds one live buffer, and the held
/// addresses stay apart from the free ones.
pub proof fn lemma_take_keeps_live_apart(
    before: &BufferCache,
    after: &BufferCache,
    device: i32,
    size: usize,
    r: Option<usize>,
    live: Set<usize>,
)
    requires
        before.wf(),
        took(before, after, device, size, r),
        apart(before, device, size, live),
        live.finite(),
    ensures
        match r {
            Some(a) => {
                &&& !live.contains(a)
                &&& live.insert(a).len() == live.len() + 1
                &&& apart(after, device, size, live.insert(a))
            },
            None => apart(after, device, size, live),
        },
{
    let free = before.free_at(device, size);
    before.lemma_no_duplicates(device, size);
    if let Some(a) = r {
        assert(free.contains(a)) by {
            assert(free[free.len() - 1] == a);
        }
        assert forall|x: usize| live.insert(a).contains(x) implies !#[trigger] after.free_at(
            device,
            size,
        ).contains(x) by {
            if after.free_at(device, size).contains(x) {
                let j = choose|j: int|
                    0 <= j < free.len() - 1 && after.free_at(device, size)[j] == x;
                assert(free[j] == x);
                assert(free.contains(x));
                if x == a {
                    assert(free[j] == free[free.len() - 1]);
                }
            }
        }
    }
}

/// Releasing a held buffer into the cache keeps the other held addresses
/// apart from the free ones.
pub proof fn lemma_release_keeps_live_apart(
    before: &BufferCache,
    after: &BufferCache,
    device: i32,
    size: usize,
    addr: usize,
    r: Result<ReleaseAction, Error>,
    live: Set<usize>,
)
    requires
        before.wf(),
        released(before, after, device, size, addr, r),
        apart(before, device, size, live),
        live.contains(addr),
    ensures
        r == Ok::<ReleaseAction, Error>(ReleaseAction::Cached) || r == Ok::<ReleaseAction, Error>(
            ReleaseAction::FreeOnDevice,
        ),
        apart(after, device, size, live.remove(addr)),
{
    let free = before.free_at(device, size);
    assert(!free.contains(addr));
    assert forall|x: usize| live.remove(addr).contains(x) implies !#[trigger] after.free_at(
        device,
        size,
    ).contains(x) by {
        assert(!free.contains(x));
        if after.free_at(device, size).contains(x) && size < HUGE_BUFFER_SIZE {
            let j = choose|j: int|
                0 <= j < after.free_at(device, size).len() && after.free_at(device, size)[j] == x;
            if j < free.len() {
                assert(free[j] == x);
                assert(free.contains(x));
            } else {
                assert(after.free_at(device, size)[j] == addr);
            }
        }
    }
}

} // verus!

verus! {

/// One step on the class `(device, size)`, from cache `c0` holding out `live0`
/// to `c1` holding out `live1`. An acquire takes from the cache, or, when the
/// class is empty, gets from the device an address that is neither held nor
/// free; a release gives back a held address.
pub open spec fn cache_step(
    c0: &BufferCache,
    c1: &BufferCache,
    live0: Set<usize>,
    live1: Set<usize>,
    acquire: bool,
    device: i32,
    size: usize,
) -> bool {
    &&& c1.wf()
    &&& if acquire {
        exists|r: Option<usize>, a: usize|
            took(c0, c1, device, size, r) && live1 == live0.insert(a) && match r {
                Some(x) => x == a,
                None => !live0.contains(a) && !c0.free_at(device, size).contains(a),
            }
    } else {
        exists|a: usize, res: Result<ReleaseAction, Error>|
            live0.contains(a) && released(c0, c1, device, size, a, res) && live1 == live0.remove(a)
    }
}

/// The number of acquires minus the number of releases among the first `i` events.
pub open spec fn outstanding(events: Seq<bool>, i: int) -> int
    decreases i,
{
    if i <= 0 {
        0
    } else {
        outstanding(events, i - 1) + if events[i - 1] {
            1int
        } else {
            -1int
        }
    }
}

/// The number of acquires among the first `i` events that found the class
/// empty and so got a new address from the device.
pub open spec fn device_allocations(
    caches: Seq<BufferCache>,
    events: Seq<bool>,
    device: i32,
    size: usize,
    i: int,
) -> int
    decreases i,
{
    if i <= 0 {
        0
    } else {
        device_allocations(caches, events, device, size, i - 1) + if events[i - 1]
            && caches[i - 1].free_at(device, size).len() == 0 {
            1int
        } else {
            0int
        }
    }
}

/// Over any sequence of acquires and releases on one class, starting with
/// nothing held, the buffers held out are exactly as many as the outstanding
/// acquires, and none of them is ever free in the cache, so no address is
/// handed to two holders at once. Starting from an empty class of a size
/// the cache keeps, the free and the held addresses together are as many as
/// the device ever allocated.
pub proof fn lemma_live_buffers_over_a_run(
    caches: Seq<BufferCache>,
    lives: Seq<Set<usize>>,
    events: Seq<bool>,
    device: i32,
    size: usize,
)
    requires
        caches.len() == events.len() + 1,
        lives.len() == caches.len(),
        caches[0].wf(),
        lives[0] == Set::<usize>::empty(),
        forall|i: int|
            0 <= i < events.len() ==> cache_step(
                &caches[i],
                &caches[i + 1],
                lives[i],
                lives[i + 1],
                #[trigger] events[i],
                device,
                size,
            ),
    ensures
        forall|i: int|
            0 <= i < caches.len() ==> (#[trigger] lives[i]).finite() && lives[i].len() == outstanding(
                events,
                i,
            ) && apart(&caches[i], device, size, lives[i]),
        size < HUGE_BUFFER_SIZE && caches[0].free_at(device, size).len() == 0 ==> forall|i: int|
            0 <= i < caches.len() ==> #[trigger] caches[i].free_at(device, size).len()
                + lives[i].len() == device_allocations(caches, events, device, size, i),
{
    assert forall|i: int| 0 <= i < caches.len() implies (#[trigger] lives[i]).finite()
        && lives[i].len() == outstanding(events, i) && apart(&caches[i], device, size, lives[i])
        && caches[i].wf() by {
        lemma_run_prefix(caches, lives, events, device, size, i);
    }
    if size < HUGE_BUFFER_SIZE && caches[0].free_at(device, size).len() == 0 {
        assert forall|i: int| 0 <= i < caches.len() implies #[trigger] caches[i].free_at(
            device,
            size,
        ).len() + lives[i].len() == device_allocations(caches, events, device, size, i) by {
            lemma_run_allocations(caches, lives, events, device, size, i);
        }
    }
}

proof fn lemma_run_allocations(
    caches: Seq<BufferCache>,
    lives: Seq<Set<usize>>,
    events: Seq<bool>,
    device: i32,
    size: usize,
    i: int,
)
    requires
        caches.len() == events.len() + 1,
        lives.len() == caches.len(),
        caches[0].wf(),
        lives[0] == Set::<usize>::empty(),
        forall|j: int|
            0 <= j < events.len() ==> cache_step(
                &caches[j],
                &caches[j + 1],
                lives[j],
                lives[j + 1],
                #[trigger] events[j],
                device,
                size,
            ),
        size < HUGE_BUFFER_SIZE,
        caches[0].free_at(device, size).len() == 0,
        0 <= i < caches.len(),
    ensures
        caches[i].free_at(device, size).len() + lives[i].len() == device_allocations(
            caches,
            events,
            device,
            size,
            i,
        ),
    decreases i,
{
    if i > 0 {
        let j = i - 1;
        lemma_run_allocations(caches, lives, events, device, size, j);
        lemma_run_prefix(caches, lives, events, device, size, j);
        assert(cache_step(&caches[j], &caches[i], lives[j], lives[i], events[j], device, size));
        if events[j] {
            let (r, a) = choose|r: Option<usize>, a: usize|
                took(&caches[j], &caches[i], device, size, r) && lives[i] == lives[j].insert(a)
                    && match r {
                    Some(x) => x == a,
                    None => !lives[j].contains(a) && !caches[j].free_at(device, size).contains(a),
                };
            lemma_take_keeps_live_apart(&caches[j], &caches[i], device, size, r, lives[j]);
        } else {
            let (a, res) = choose|a: usize, res: Result<ReleaseAction, Error>|
                lives[j].contains(a) && released(&caches[j], &caches[i], device, size, a, res)
                    && lives[i] == lives[j].remove(a);
            assert(!caches[j].free_at(device, size).contains(a));
        }
    }
}

proof fn lemma_run_prefix(
    caches: Seq<BufferCache>,
    lives: Seq<Set<usize>>,
    events: Seq<bool>,
    device: i32,
    size: usize,
    i: int,
)
    requires
        caches.len() == events.len() + 1,
        lives.len() == caches.len(),
        caches[0].wf(),
        lives[0] == Set::<usize>::empty(),
        forall|j: int|
            0 <= j < events.len() ==> cache_step(
                &caches[j],
                &caches[j + 1],
                lives[j],
                lives[j + 1],
                #[trigger] events[j],
                device,
                size,
            ),
        0 <= i < caches.len(),
    ensures
        lives[i].finite(),
        lives[i].len() == outstanding(events, i),
        apart(&caches[i], device, size, lives[i]),
        caches[i].wf(),
    decreases i,
{
    if i == 0 {
        assert(apart(&caches[0], device, size, lives[0]));
    } else {
        lemma_run_prefix(caches, lives, events, device, size, i - 1);
        let j = i - 1;
        assert(cache_step(&caches[j], &caches[i], lives[j], lives[i], events[j], device, size));
        if events[j] {
            let (r, a) = choose|r: Option<usize>, a: usize|
                took(&caches[j], &caches[i], device, size, r) && lives[i] == lives[j].insert(a)
                    && match r {
                    Some(x) => x == a,
                    None => !lives[j].contains(a) && !caches[j].free_at(device, size).contains(a),
                };
            lemma_take_keeps_live_apart(&caches[j], &caches[i], device, size, r, lives[j]);
            if r is None {
                assert forall|x: usize| lives[j].insert(a).contains(x) implies !#[trigger] caches[i].free_at(
                    device,
                    size,
                ).contains(x) by {
                    assert(caches[i].free_at(device, size) == caches[j].free_at(device, size));
                }
            }
        } else {
            let (a, res) = choose|a: usize, res: Result<ReleaseAction, Error>|
                lives[j].contains(a) && released(&caches[j], &caches[i], device, size, a, res)
                    && lives[i] == lives[j].remove(a);
            lemma_release_keeps_live_apart(&caches[j], &caches[i], device, size, a, res, lives[j]);
        }
    }
}

} // verus!
