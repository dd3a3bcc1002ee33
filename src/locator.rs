//! The match finder: hash chains over the positions of recent three-byte
//! keys, kept in two windows that age out together.
use vstd::prelude::*;

verus! {

const HASH_SIZE: usize = 32768;

const HASH_SLIDE: usize = 5;

const HASH_MASK: usize = 32767;

const WINDOW_SIZE: usize = 20000;

/// Finds earlier positions whose key hashes alike.
pub struct Locator {
    current: WindowLocator,
    previous: WindowLocator,
    hash: usize,
    next: usize,
    registered: Ghost<Map<nat, usize>>,
}

/// The chains of one window: `heads[h]` is the latest position with hash
/// `h`, and `tail_links[p]` the one before position `p`, both relative to
/// `offset`.
struct WindowLocator {
    heads: Vec<Option<usize>>,
    tail_links: Vec<Option<usize>>,
    offset: usize,
}

impl Locator {
    /// The locator's chains are sound: they link positions registered under
    /// the same hash, latest first, and the previous window ends where the
    /// current one begins.
    pub closed spec fn wf(&self) -> bool {
        &&& self.current.wf(self.next as nat, self.registered@)
        &&& self.previous.wf(self.current.offset as nat, self.registered@)
        &&& self.previous.offset == 0 || self.previous.offset + WINDOW_SIZE <= self.current.offset
        &&& self.hash <= HASH_MASK
        &&& forall|p: nat| #[trigger] self.registered@.contains_key(p) ==> p < self.next
    }

    /// One past the latest position registered (zero when none was).
    pub closed spec fn next_location(&self) -> nat {
        self.next as nat
    }

    /// The first position that the locator still holds: the start of the
    /// previous window.
    pub closed spec fn window_start(&self) -> nat {
        self.previous.offset as nat
    }

    /// The start of the current window.
    pub closed spec fn current_start(&self) -> nat {
        self.current.offset as nat
    }

    /// The hash that each registered position was registered under.
    pub closed spec fn registered(&self) -> Map<nat, usize> {
        self.registered@
    }

    /// The rolling hash of the bytes slid in so far.
    pub closed spec fn hash_value(&self) -> usize {
        self.hash
    }

    /// An empty locator.
    pub fn new() -> (r: Self)
        ensures
            r.wf(),
            r.next_location() == 0,
            r.hash_value() == 0,
            r.window_start() == 0,
            r.current_start() == 0,
            r.registered() == Map::<nat, usize>::empty(),
    {
        Locator {
            current: WindowLocator::new(0),
            previous: WindowLocator::new(0),
            hash: 0,
            next: 0,
            registered: Ghost(Map::empty()),
        }
    }

    /// Slides `byte` into the rolling hash and returns the new hash: five
    /// bits per byte over fifteen bits, so it covers the last three bytes.
    pub fn slide_hash(&mut self, byte: u8) -> (r: usize)
        requires
            old(self).wf(),
        ensures
            final(self).wf(),
            final(self).next_location() == old(self).next_location(),
            final(self).registered() == old(self).registered(),
            final(self).window_start() == old(self).window_start(),
            final(self).current_start() == old(self).current_start(),
            r == final(self).hash_value(),
            r == ((old(self).hash_value() << 5usize) ^ (byte as usize)) & 0x7fffusize,
            r < 32768,
    {
        let h = self.hash;
        let b = byte as usize;
        assert(((h << 5usize) ^ b) & 0x7fffusize <= 0x7fffusize) by (bit_vector);
        self.hash = ((h << HASH_SLIDE) ^ b) & HASH_MASK;
        self.hash
    }

    /// Records that the key ending two bytes after `location` has hash
    /// `hash`. When the current window is full it becomes the previous one,
    /// and the window before it is dropped.
    #[verifier::rlimit(80)]
    pub fn register(&mut self, hash: usize, location: usize)
        requires
            old(self).wf(),
            hash < 32768,
            old(self).next_location() <= location < usize::MAX,
        ensures
            final(self).wf(),
            final(self).next_location() == location + 1,
            final(self).hash_value() == old(self).hash_value(),
            final(self).registered() == old(self).registered().insert(location as nat, hash),
            final(self).window_start() == if location - old(self).current_start() >= 20000 {
                old(self).current_start()
            } else {
                old(self).window_start()
            },
            final(self).current_start() == if location - old(self).current_start() >= 20000 {
                location as nat
            } else {
                old(self).current_start()
            },
    {
        let ghost m = self.registered@.insert(location as nat, hash);
        proof {
            self.current.lemma_widen(self.next as nat, self.registered@, location as nat, self.registered@);
            self.current.lemma_widen(self.next as nat, self.registered@, location as nat, m);
            self.previous.lemma_widen(
                self.current.offset as nat,
                self.registered@,
                self.current.offset as nat,
                m,
            );
        }
        let r = self.current.register(hash, location, Ghost(self.registered@));
        if r.is_ok() {
            self.next = location + 1;
            self.registered = Ghost(m);
            return;
        }
        let mut fresh = WindowLocator::new(location);
        std::mem::swap(&mut self.current, &mut fresh);
        self.previous = fresh;
        let registered = self.current.register(hash, location, Ghost(self.registered@));
        proof {
            assert(registered is Ok);
        }
        self.next = location + 1;
        self.registered = Ghost(m);
    }

    /// Up to `limit` earlier positions registered under `hash`, latest
    /// first.
    #[verifier::rlimit(80)]
    pub fn locate(&self, hash: usize, limit: usize) -> (r: Vec<usize>)
        requires
            self.wf(),
            hash < 32768,
        ensures
            r@.len() <= limit,
            forall|k: int| 0 <= k < r@.len() ==> r@[k] < self.next_location(),
            forall|k: int|
                0 <= k < r@.len() ==> self.registered().contains_key(#[trigger] r@[k] as nat)
                    && self.registered()[r@[k] as nat] == hash,
            forall|a: int, b: int| 0 <= a < b < r@.len() ==> r@[a] > r@[b],
            forall|p: nat|
                #![trigger self.registered().contains_key(p)]
                self.registered().contains_key(p) && self.registered()[p] == hash && p
                    >= self.window_start() ==> holds(r@, 0, p) || (r@.len() == limit && (limit == 0
                    || p < r@.last())),
            self.window_start() == 0 || self.window_start() + 20000 <= self.next_location(),
            r@ == top_k(
                self.registered(),
                hash,
                self.window_start() as int,
                self.next_location() as int,
                limit as nat,
            ),
    {
        let mut out: Vec<usize> = Vec::new();
        self.current.locate(hash, limit, Ghost(self.next as nat), Ghost(self.registered@), &mut out);
        let ghost mid = out@;
        self.previous.locate(
            hash,
            limit,
            Ghost(self.current.offset as nat),
            Ghost(self.registered@),
            &mut out,
        );
        proof {
            let m = self.registered@;
            assert forall|p: nat|
                #![trigger m.contains_key(p)]
                m.contains_key(p) && m[p] == hash && p >= self.previous.offset implies holds(out@, 0, p)
                    || (out@.len() == limit && (limit == 0 || p < out@.last())) by {
                if p >= self.current.offset {
                    assert(self.current.in_window(self.next as nat, m, p));
                    if holds(mid, 0, p) {
                        let k = choose|k: int| 0 <= k < mid.len() && mid[k] as nat == p;
                        assert(out@[k] == mid[k]);
                    }
                } else {
                    assert(self.previous.in_window(self.current.offset as nat, m, p));
                    if holds(out@, mid.len() as int, p) {
                        let k = choose|k: int| mid.len() <= k < out@.len() && out@[k] as nat == p;
                        assert(holds(out@, 0, p));
                    }
                }
            }
            assert forall|j: int| 0 <= j < out@.len() implies self.previous.offset <= out@[j] && out@[j]
                < self.next && m.contains_key(#[trigger] out@[j] as nat) && m[out@[j] as nat] == hash by {
                if j < mid.len() {
                    assert(out@[j] == mid[j]);
                }
            }
            lemma_top_k(m, hash, self.previous.offset as int, self.next as int, limit as nat, out@);
        }
        out
    }
}

/// The first `k` positions in `[lo, hi)` registered under `h`, latest
/// first.
pub open spec fn top_k(m: Map<nat, usize>, h: usize, lo: int, hi: int, k: nat) -> Seq<usize>
    decreases hi - lo,
{
    if hi <= lo || k == 0 {
        Seq::empty()
    } else if m.contains_key((hi - 1) as nat) && m[(hi - 1) as nat] == h {
        seq![(hi - 1) as usize] + top_k(m, h, lo, hi - 1, (k - 1) as nat)
    } else {
        top_k(m, h, lo, hi - 1, k)
    }
}

/// A list of positions registered under `h` in `[lo, hi)`, latest first,
/// that misses none of them but those older than its last when it holds
/// `k`, is the first `k` of them.
proof fn lemma_top_k(m: Map<nat, usize>, h: usize, lo: int, hi: int, k: nat, r: Seq<usize>)
    requires
        0 <= lo,
        r.len() <= k,
        forall|a: int, b: int| 0 <= a < b < r.len() ==> r[a] > r[b],
        forall|j: int|
            0 <= j < r.len() ==> lo <= r[j] < hi && m.contains_key(#[trigger] r[j] as nat) && m[r[j] as nat]
                == h,
        forall|p: nat|
            #![trigger m.contains_key(p)]
            lo <= p < hi && m.contains_key(p) && m[p] == h ==> holds(r, 0, p) || (r.len() == k && (k
                == 0 || p < r.last())),
    ensures
        r == top_k(m, h, lo, hi, k),
    decreases hi - lo,
{
    if hi <= lo || k == 0 {
        if r.len() > 0 {
            assert(m.contains_key(r[0] as nat));
        }
        assert(r =~= Seq::<usize>::empty());
    } else {
        let t = (hi - 1) as nat;
        if m.contains_key(t) && m[t] == h {
            assert(holds(r, 0, t)) by {
                if !holds(r, 0, t) {
                    assert(lo <= t < hi && m.contains_key(t) && m[t] == h);
                    assert(holds(r, 0, t) || (r.len() == k && (k == 0 || t < r.last())));
                    assert(r.len() == k);
                    assert(r.last() == r[r.len() - 1]);
                    assert(m.contains_key(r[r.len() - 1] as nat));
                }
            }
            let j = choose|j: int| 0 <= j < r.len() && r[j] as nat == t;
            assert(m.contains_key(r[0] as nat));
            if j > 0 {
                assert(r[0] > r[j]);
            }
            let r2 = r.drop_first();
            assert forall|j2: int| 0 <= j2 < r2.len() implies lo <= r2[j2] < hi - 1 && m.contains_key(
                #[trigger] r2[j2] as nat,
            ) && m[r2[j2] as nat] == h by {
                assert(r2[j2] == r[j2 + 1]);
                assert(m.contains_key(r[j2 + 1] as nat));
                assert(r[0] > r[j2 + 1]);
            }
            assert forall|p: nat|
                #![trigger m.contains_key(p)]
                lo <= p < hi - 1 && m.contains_key(p) && m[p] == h implies holds(r2, 0, p) || (r2.len()
                    == (k - 1) as nat && ((k - 1) as nat == 0 || p < r2.last())) by {
                if holds(r, 0, p) {
                    let j3 = choose|j3: int| 0 <= j3 < r.len() && r[j3] as nat == p;
                    assert(j3 != 0);
                    assert(r2[j3 - 1] == r[j3]);
                } else if r2.len() > 0 {
                    assert(r2.last() == r.last());
                }
            }
            lemma_top_k(m, h, lo, hi - 1, (k - 1) as nat, r2);
            assert(r =~= seq![t as usize] + r2);
        } else {
            assert forall|j2: int| 0 <= j2 < r.len() implies lo <= r[j2] < hi - 1 && m.contains_key(
                #[trigger] r[j2] as nat,
            ) && m[r[j2] as nat] == h by {
                assert(m.contains_key(r[j2] as nat));
            }
            lemma_top_k(m, h, lo, hi - 1, k, r);
        }
    }
}

/// Some element of `s` from index `lo` on is `x`.
pub open spec fn holds(s: Seq<usize>, lo: int, x: nat) -> bool {
    exists|k: int| lo <= k < s.len() && s[k] as nat == x
}

impl WindowLocator {
    /// `q` is a registered position of this window, which ends before
    /// `bound`.
    spec fn in_window(&self, bound: nat, m: Map<nat, usize>, q: nat) -> bool {
        self.offset <= q < bound && m.contains_key(q)
    }

    /// Every stored position lies before `bound` and was registered under
    /// the hash of its chain, and every chain runs towards earlier
    /// positions. The chains are complete: each registered position of the
    /// window is at or below the head of its hash, and between a position
    /// and the next one on its chain no position has the same hash.
    spec fn wf(&self, bound: nat, m: Map<nat, usize>) -> bool {
        &&& forall|q: nat|
            #[trigger] self.in_window(bound, m, q) ==> m[q] < HASH_SIZE && (self.heads@[m[q] as int] matches Some(
                p,
            ) && q <= self.offset + p)
        &&& forall|p: int, q: nat|
            0 <= p < WINDOW_SIZE && self.offset + p < bound && m.contains_key(
                (self.offset + p) as nat,
            ) && #[trigger] self.in_window(bound, m, q) && q < self.offset + p && m[q] == m[(
            self.offset + p) as nat] ==> (#[trigger] self.tail_links@[p] matches Some(t) && q
                <= self.offset + t)
        &&& self.heads@.len() == HASH_SIZE
        &&& self.tail_links@.len() == WINDOW_SIZE
        &&& self.offset <= bound
        &&& forall|h: int|
            0 <= h < HASH_SIZE ==> (#[trigger] self.heads@[h] matches Some(p) ==> p < WINDOW_SIZE
                && self.offset + p < bound && m.contains_key((self.offset + p) as nat) && m[(
                self.offset + p) as nat] == h)
        &&& forall|p: int|
            0 <= p < WINDOW_SIZE ==> (#[trigger] self.tail_links@[p] matches Some(q) ==> q < p
                && self.offset + p < bound && m.contains_key((self.offset + p) as nat) && m.contains_key(
                (self.offset + q) as nat,
            ) && m[(self.offset + q) as nat] == m[(self.offset + p) as nat])
    }

    /// The window stays sound when its end moves from `bound` to
    /// `new_bound` and the registrations change only from `new_bound` on,
    /// where none were before.
    proof fn lemma_widen(&self, bound: nat, m: Map<nat, usize>, new_bound: nat, m2: Map<nat, usize>)
        requires
            self.wf(bound, m),
            bound <= new_bound,
            forall|q: nat| q < new_bound ==> (m2.contains_key(q) <==> m.contains_key(q)),
            forall|q: nat| q < new_bound && m.contains_key(q) ==> m2[q] == m[q],
            forall|q: nat| bound <= q < new_bound ==> !m.contains_key(q),
        ensures
            self.wf(new_bound, m2),
    {
        assert forall|q: nat| #[trigger] self.in_window(new_bound, m2, q) implies self.in_window(
            bound,
            m,
            q,
        ) && m2[q] == m[q] by {}
        assert forall|p: int| 0 <= p < WINDOW_SIZE implies (#[trigger] self.tail_links@[p] matches Some(
            q,
        ) ==> q < p && self.offset + p < new_bound && m2.contains_key((self.offset + p) as nat)
            && m2.contains_key((self.offset + q) as nat) && m2[(self.offset + q) as nat] == m2[(
        self.offset + p) as nat]) by {
            if let Some(q) = self.tail_links@[p] {
                assert(m.contains_key((self.offset + p) as nat));
                assert(m.contains_key((self.offset + q) as nat));
            }
        }
        assert forall|p: int, q: nat|
            0 <= p < WINDOW_SIZE && self.offset + p < new_bound && m2.contains_key(
                (self.offset + p) as nat,
            ) && #[trigger] self.in_window(new_bound, m2, q) && q < self.offset + p && m2[q] == m2[(
            self.offset + p) as nat] implies (#[trigger] self.tail_links@[p] matches Some(t) && q
            <= self.offset + t) by {
            assert(self.in_window(bound, m, q));
        }
    }

    fn new(offset: usize) -> (r: Self)
        ensures
            forall|m: Map<nat, usize>| #[trigger] r.wf(offset as nat, m),
            r.offset == offset,
    {
        WindowLocator { heads: vec![None; HASH_SIZE], tail_links: vec![None; WINDOW_SIZE], offset }
    }

    #[verifier::rlimit(80)]
    fn register(&mut self, hash: usize, location: usize, Ghost(m): Ghost<Map<nat, usize>>) -> (r:
        Result<(), ()>)
        requires
            old(self).wf(location as nat, m),
            hash < HASH_SIZE,
            location < usize::MAX,
            forall|p: nat| #[trigger] m.contains_key(p) ==> p < location,
        ensures
            final(self).offset == old(self).offset,
            r is Ok ==> final(self).wf(location as nat + 1, m.insert(location as nat, hash)),
            r is Ok ==> final(self).heads@ == old(self).heads@.update(
                hash as int,
                Some((location - old(self).offset) as usize),
            ),
            r is Ok ==> final(self).tail_links@ == old(self).tail_links@.update(
                location - old(self).offset,
                old(self).heads@[hash as int],
            ),
            r is Err ==> *final(self) == *old(self),
            r is Err <==> location - old(self).offset >= WINDOW_SIZE,
    {
        let local = location - self.offset;
        if local >= WINDOW_SIZE {
            return Err(());
        }
        let ghost m2 = m.insert(location as nat, hash);
        let head = self.heads[hash];
        proof {
            assert(!m.contains_key(location as nat));
            assert forall|p: int| 0 <= p < WINDOW_SIZE && p != local implies (#[trigger] self.tail_links@[p] matches Some(
                q,
            ) ==> m.contains_key((self.offset + p) as nat) && (self.offset + p) as nat != location as nat
                && m2[(self.offset + q) as nat] == m2[(self.offset + p) as nat]) by {
                if let Some(q) = self.tail_links@[p] {
                    assert(m.contains_key((self.offset + p) as nat));
                    assert(m.contains_key((self.offset + q) as nat));
                }
            }
            if let Some(q) = head {
                assert(m.contains_key((self.offset + q) as nat));
            }
        }
        self.tail_links.set(local, head);
        self.heads.set(hash, Some(local));
        proof {
            let bound = location as nat;
            assert forall|q: nat| #[trigger] self.in_window(bound + 1, m2, q) implies m2[q] < HASH_SIZE
                && (self.heads@[m2[q] as int] matches Some(p) && q <= self.offset + p) by {
                if q != location {
                    assert(old(self).in_window(bound, m, q));
                }
            }
            assert forall|p: int, q: nat|
                0 <= p < WINDOW_SIZE && self.offset + p < bound + 1 && m2.contains_key(
                    (self.offset + p) as nat,
                ) && #[trigger] self.in_window(bound + 1, m2, q) && q < self.offset + p && m2[q]
                    == m2[(self.offset + p) as nat] implies (#[trigger] self.tail_links@[p] matches Some(
                t,
            ) && q <= self.offset + t) by {
                assert(old(self).in_window(bound, m, q));
                if p != local {
                    assert(m.contains_key((self.offset + p) as nat));
                }
            }
            assert forall|h: int| 0 <= h < HASH_SIZE implies (#[trigger] self.heads@[h] matches Some(p)
                ==> p < WINDOW_SIZE && self.offset + p < location + 1 && m2.contains_key(
                (self.offset + p) as nat,
            ) && m2[(self.offset + p) as nat] == h) by {
                if h != hash {
                    if let Some(p) = self.heads@[h] {
                        assert(old(self).heads@[h] == Some(p));
                        assert(m.contains_key((self.offset + p) as nat));
                    }
                }
            }
        }
        Ok(())
    }

    /// Pushes onto `out` up to `limit` positions of the chain of `hash`,
    /// latest first.
    fn locate(
        &self,
        hash: usize,
        limit: usize,
        Ghost(bound): Ghost<nat>,
        Ghost(m): Ghost<Map<nat, usize>>,
        out: &mut Vec<usize>,
    )
        requires
            self.wf(bound, m),
            bound <= usize::MAX,
            hash < HASH_SIZE,
            old(out)@.len() <= limit,
            forall|k: int| 0 <= k < old(out)@.len() ==> old(out)@[k] >= bound,
            forall|k: int|
                0 <= k < old(out)@.len() ==> m.contains_key(#[trigger] old(out)@[k] as nat)
                    && m[old(out)@[k] as nat] == hash,
            forall|a: int, b: int| 0 <= a < b < old(out)@.len() ==> old(out)@[a] > old(out)@[b],
        ensures
            final(out)@.len() <= limit,
            final(out)@.len() >= old(out)@.len(),
            forall|k: int| 0 <= k < old(out)@.len() ==> final(out)@[k] == old(out)@[k],
            forall|k: int| old(out)@.len() <= k < final(out)@.len() ==> final(out)@[k] < bound,
            forall|k: int| old(out)@.len() <= k < final(out)@.len() ==> final(out)@[k] >= self.offset,
            forall|k: int|
                0 <= k < final(out)@.len() ==> m.contains_key(#[trigger] final(out)@[k] as nat)
                    && m[final(out)@[k] as nat] == hash,
            forall|a: int, b: int| 0 <= a < b < final(out)@.len() ==> final(out)@[a] > final(out)@[b],
            forall|q: nat|
                #[trigger] self.in_window(bound, m, q) && m[q] == hash ==> holds(
                    final(out)@,
                    old(out)@.len() as int,
                    q,
                ) || (final(out)@.len() == limit && (limit == 0 || q < final(out)@.last())),
    {
        let ghost start = out@;
        let mut pending = self.heads[hash];
        while out.len() < limit && pending.is_some()
            invariant
                self.wf(bound, m),
                bound <= usize::MAX,
                out@.len() <= limit,
                out@.len() >= start.len(),
                forall|k: int| 0 <= k < start.len() ==> out@[k] == start[k],
                forall|k: int| 0 <= k < start.len() ==> start[k] >= bound,
                forall|k: int| start.len() <= k < out@.len() ==> out@[k] < bound,
                forall|k: int| start.len() <= k < out@.len() ==> out@[k] >= self.offset,
                forall|k: int|
                    0 <= k < out@.len() ==> m.contains_key(#[trigger] out@[k] as nat) && m[out@[k] as nat]
                        == hash,
                forall|a: int, b: int| 0 <= a < b < out@.len() ==> out@[a] > out@[b],
                pending matches Some(p) ==> p < WINDOW_SIZE && self.offset + p < bound
                    && m.contains_key((self.offset + p) as nat) && m[(self.offset + p) as nat] == hash
                    && (out@.len() > 0 ==> out@[out@.len() - 1] > self.offset + p),
                forall|q: nat|
                    #[trigger] self.in_window(bound, m, q) && m[q] == hash ==> holds(
                        out@,
                        start.len() as int,
                        q,
                    ) || (pending matches Some(p) && q <= self.offset + p),
            decreases
                    (match pending {
                    Some(p) => p + 1,
                    None => 0,
                }),
        {
            if let Some(c) = pending {
                    let ghost before = out@;
                    out.push(c + self.offset);
                    pending = self.tail_links[c];
                    proof {
                        assert forall|q: nat|
                            #[trigger] self.in_window(bound, m, q) && m[q] == hash implies holds(
                            out@,
                            start.len() as int,
                            q,
                        ) || (pending matches Some(p) && q <= self.offset + p) by {
                            if holds(before, start.len() as int, q) {
                                let k = choose|k: int|
                                    start.len() <= k < before.len() && before[k] as nat == q;
                                assert(out@[k] == before[k]);
                            } else if q == self.offset + c {
                                assert(out@[before.len() as int] as nat == q);
                            }
                        }
                    }
            }
        }
        proof {
            assert forall|q: nat|
                #[trigger] self.in_window(bound, m, q) && m[q] == hash implies holds(
                out@,
                start.len() as int,
                q,
            ) || (out@.len() == limit && (limit == 0 || q < out@.last())) by {
                if !holds(out@, start.len() as int, q) {
                    if out@.len() > 0 {
                        assert(out@.last() == out@[out@.len() - 1]);
                    }
                }
            }
        }
    }
}

} // verus!
