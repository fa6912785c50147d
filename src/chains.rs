//! Intersections found at one location are threaded into chains through `next` and
//! `previous` links, stored as indices into an arena.
use vstd::prelude::*;

verus! {

/// Chains of intersections: each intersection has at most one successor and one predecessor,
/// the two links agree, and no chain runs in a circle.
pub struct IntersectionChains {
    next: Vec<Option<usize>>,
    previous: Vec<Option<usize>>,
    /// Distance of each intersection from the first of its chain.
    pos: Ghost<Seq<int>>,
    /// Distance of the last intersection of each chain from its first.
    last: Ghost<Seq<int>>,
    /// The first intersection of each chain.
    head: Ghost<Seq<int>>,
}

pub open spec fn link_in(l: Option<usize>, n: int) -> bool {
    match l {
        Some(b) => b < n,
        None => true,
    }
}

impl IntersectionChains {
    /// Number of intersections.
    pub closed spec fn len(&self) -> int {
        self.next@.len() as int
    }

    /// The successor of intersection `a`.
    pub closed spec fn next_of(&self, a: int) -> Option<usize> {
        self.next@[a]
    }

    /// The predecessor of intersection `a`.
    pub closed spec fn previous_of(&self, a: int) -> Option<usize> {
        self.previous@[a]
    }

    /// The first intersection of the chain of `a`; two intersections are in one chain when
    /// their chains have the same first intersection.
    pub closed spec fn chain_of(&self, a: int) -> int {
        self.head@[a]
    }

    /// The links of intersection `a` agree with those of its neighbours and with the
    /// positions along its chain.
    spec fn node_ok(&self, a: int) -> bool {
        let n = self.next@.len() as int;
        &&& link_in(self.next@[a], n)
        &&& link_in(self.previous@[a], n)
        &&& 0 <= self.pos@[a] <= self.last@[a]
        &&& 0 <= self.head@[a] < n
        &&& (self.next@[a] matches Some(b) ==> self.previous@[b as int] == Some(a as usize)
            && self.pos@[b as int] == self.pos@[a] + 1 && self.head@[b as int] == self.head@[a]
            && self.last@[b as int] == self.last@[a])
        &&& (self.previous@[a] matches Some(p) ==> self.next@[p as int] == Some(a as usize))
        &&& (self.previous@[a] is None ==> self.pos@[a] == 0 && self.head@[a] == a)
        &&& (self.next@[a] is None ==> self.pos@[a] == self.last@[a])
    }

    pub closed spec fn wf(&self) -> bool {
        let n = self.next@.len() as int;
        &&& n <= usize::MAX
        &&& self.previous@.len() == n
        &&& self.pos@.len() == n
        &&& self.last@.len() == n
        &&& self.head@.len() == n
        &&& forall|a: int| 0 <= a < n ==> #[trigger] self.node_ok(a)
    }

    /// `n` intersections, each alone in its chain.
    pub fn new(n: usize) -> (r: IntersectionChains)
        ensures
            r.wf(),
            r.len() == n,
            forall|a: int|
                0 <= a < n ==> r.next_of(a) is None && r.previous_of(a) is None && r.chain_of(a)
                    == a,
    {
        let mut next: Vec<Option<usize>> = Vec::new();
        let mut previous: Vec<Option<usize>> = Vec::new();
        let mut i: usize = 0;
        while i < n
            invariant
                i <= n,
                next@.len() == i,
                previous@.len() == i,
                forall|a: int| 0 <= a < i ==> next@[a] is None && previous@[a] is None,
            decreases n - i,
        {
            next.push(None);
            previous.push(None);
            i = i + 1;
        }
        let r = IntersectionChains {
            next,
            previous,
            pos: Ghost(Seq::new(n as nat, |a: int| 0int)),
            last: Ghost(Seq::new(n as nat, |a: int| 0int)),
            head: Ghost(Seq::new(n as nat, |a: int| a)),
        };
        assert forall|a: int| 0 <= a < n implies #[trigger] r.node_ok(a) by {}
        r
    }

    pub fn next(&self, a: usize) -> (r: Option<usize>)
        requires
            a < self.len(),
        ensures
            r == self.next_of(a as int),
    {
        self.next[a]
    }

    pub fn previous(&self, a: usize) -> (r: Option<usize>)
        requires
            a < self.len(),
            self.wf(),
        ensures
            r == self.previous_of(a as int),
    {
        self.previous[a]
    }

    /// The intersections of the chain of `a`, from the first of the chain to the last.
    pub fn chain_members(&self, a: usize) -> (r: Vec<usize>)
        requires
            self.wf(),
            a < self.len(),
        ensures
            forall|k: int|
                0 <= k < r@.len() ==> #[trigger] r@[k] < self.len() && self.chain_of(r@[k] as int)
                    == self.chain_of(a as int),
            forall|x: int|
                0 <= x < self.len() ==> (r@.contains(x as usize) <==> self.chain_of(x)
                    == self.chain_of(a as int)),
            r@.len() > 0,
            self.previous_of(r@[0] as int) is None,
            forall|k: int| 0 <= k < r@.len() - 1 ==> self.next_of(#[trigger] r@[k] as int) == Some(r@[k + 1]),
            self.next_of(r@.last() as int) is None,
    {
        let ghost hd = self.head@[a as int];
        let mut h: usize = a;
        loop
            invariant
                self.wf(),
                h < self.len(),
                self.head@[h as int] == hd,
            ensures
                h < self.len(),
                self.head@[h as int] == hd,
                self.previous@[h as int] is None,
            decreases self.pos@[h as int],
        {
            proof {
                assert(self.node_ok(h as int));
            }
            match self.previous[h] {
                Some(q) => {
                    proof {
                        assert(self.node_ok(q as int));
                    }
                    h = q;
                },
                None => {
                    break;
                },
            }
        }
        proof {
            assert(self.node_ok(h as int));
        }
        let mut out: Vec<usize> = Vec::new();
        let mut cur: usize = h;
        loop
            invariant_except_break
                out@.len() == self.pos@[cur as int],
                out@.len() == 0 ==> cur == h,
                out@.len() > 0 ==> self.next@[out@.last() as int] == Some(cur),
            invariant
                self.wf(),
                h < self.len(),
                self.previous@[h as int] is None,
                self.head@[h as int] == hd,
                cur < self.len(),
                self.head@[cur as int] == hd,
                out@.len() > 0 ==> out@[0] == h,
                forall|k: int|
                    0 <= k < out@.len() ==> #[trigger] out@[k] < self.len() && self.head@[out@[k] as int]
                        == hd && self.pos@[out@[k] as int] == k,
                forall|k: int| 0 <= k < out@.len() - 1 ==> self.next@[#[trigger] out@[k] as int] == Some(out@[k + 1]),
            ensures
                out@.len() > 0,
                out@[0] == h,
                self.next@[out@.last() as int] is None,
                forall|k: int|
                    0 <= k < out@.len() ==> #[trigger] out@[k] < self.len() && self.head@[out@[k] as int]
                        == hd && self.pos@[out@[k] as int] == k,
                forall|k: int| 0 <= k < out@.len() - 1 ==> self.next@[#[trigger] out@[k] as int] == Some(out@[k + 1]),
                self.last@[out@.last() as int] == out@.len() - 1,
            decreases self.last@[cur as int] - self.pos@[cur as int],
        {
            proof {
                assert(self.node_ok(cur as int));
                if out@.len() == 0 {
                    assert(self.pos@[h as int] == 0);
                }
            }
            let ghost before = out@;
            out.push(cur);
            proof {
                assert forall|k: int| 0 <= k < out@.len() - 1 implies self.next@[#[trigger] out@[k] as int]
                    == Some(out@[k + 1]) by {
                    if k == before.len() - 1 {
                        assert(out@[k] == before.last());
                    }
                }
            }
            match self.next[cur] {
                Some(nx) => {
                    proof {
                        assert(self.node_ok(nx as int));
                    }
                    cur = nx;
                },
                None => {
                    break;
                },
            }
        }
        proof {
            self.lemma_last(a as int);
            self.lemma_last(h as int);
            assert(self.node_ok(out@.last() as int));
            self.lemma_last(out@.last() as int);
            assert forall|x: int| 0 <= x < self.len() implies (out@.contains(x as usize) <==> self.chain_of(x)
                == self.chain_of(a as int)) by {
                if self.head@[x] == hd {
                    assert(self.node_ok(x));
                    self.lemma_last(x);
                    let k = self.pos@[x];
                    assert(0 <= k < out@.len());
                    self.lemma_unique(x, out@[k] as int);
                    assert(out@[k] == x as usize);
                }
                if out@.contains(x as usize) {
                    let k = choose|k: int| 0 <= k < out@.len() && out@[k] == x as usize;
                }
            }
        }
        out
    }

    /// The intersection of a chain at a given distance from its first one is unique.
    proof fn lemma_unique(&self, x: int, y: int)
        requires
            self.wf(),
            0 <= x < self.len(),
            0 <= y < self.len(),
            self.head@[x] == self.head@[y],
            self.pos@[x] == self.pos@[y],
        ensures
            x == y,
        decreases self.pos@[x],
    {
        assert(self.node_ok(x));
        assert(self.node_ok(y));
        if self.pos@[x] == 0 {
            if let Some(a) = self.previous@[x] {
                assert(self.node_ok(a as int));
            }
            if let Some(b) = self.previous@[y] {
                assert(self.node_ok(b as int));
            }
        } else {
            let a = self.previous@[x]->0 as int;
            assert(self.node_ok(a));
            let b = self.previous@[y]->0 as int;
            assert(self.node_ok(b));
            self.lemma_unique(a, b);
        }
    }

    /// All intersections of a chain agree on where it ends.
    proof fn lemma_last(&self, x: int)
        requires
            self.wf(),
            0 <= x < self.len(),
        ensures
            self.last@[x] == self.last@[self.head@[x]],
            0 <= self.head@[x] < self.len(),
            self.pos@[self.head@[x]] == 0,
            self.head@[self.head@[x]] == self.head@[x],
        decreases self.pos@[x],
    {
        assert(self.node_ok(x));
        if let Some(a) = self.previous@[x] {
            assert(self.node_ok(a as int));
            self.lemma_last(a as int);
        }
    }

    /// Links the chain of `from` to the chain of `to`, unless they are one chain already:
    /// the last intersection of the chain of `from` gets the first of the chain of `to` as
    /// its successor.
    #[allow(non_snake_case)]
    pub fn linkIntersections(&mut self, from: usize, to: usize)
        requires
            old(self).wf(),
            from < old(self).len(),
            to < old(self).len(),
        ensures
            final(self).wf(),
            final(self).len() == old(self).len(),
            old(self).chain_of(from as int) == old(self).chain_of(to as int) ==> *final(self)
                == *old(self),
            old(self).chain_of(from as int) != old(self).chain_of(to as int) ==> forall|
                x: int,
                y: int,
            |
                0 <= x < old(self).len() && 0 <= y < old(self).len() ==> ((final(self).chain_of(x)
                    == final(self).chain_of(y)) <==> (old(self).chain_of(x) == old(self).chain_of(
                    y) || ((old(self).chain_of(x) == old(self).chain_of(from as int)
                    || old(self).chain_of(x) == old(self).chain_of(to as int)) && (old(
                    self,
                ).chain_of(y) == old(self).chain_of(from as int) || old(self).chain_of(y) == old(
                    self,
                ).chain_of(to as int))))),
            old(self).chain_of(from as int) != old(self).chain_of(to as int) ==> exists|
                t: int,
                h: int,
            |
                {
                    &&& 0 <= t < old(self).len()
                    &&& 0 <= h < old(self).len()
                    &&& old(self).chain_of(t) == old(self).chain_of(from as int)
                    &&& old(self).next_of(t) is None
                    &&& old(self).chain_of(h) == old(self).chain_of(to as int)
                    &&& old(self).previous_of(h) is None
                    &&& #[trigger] final(self).next_of(t) == Some(h as usize)
                    &&& #[trigger] final(self).previous_of(h) == Some(t as usize)
                    &&& forall|a: int|
                        0 <= a < old(self).len() && a != t ==> #[trigger] final(self).next_of(a)
                            == old(self).next_of(a)
                    &&& forall|a: int|
                        0 <= a < old(self).len() && a != h ==> #[trigger] final(self).previous_of(a)
                            == old(self).previous_of(a)
                },
    {
        let ghost n = self.len();
        let ghost hx = self.head@[from as int];
        proof {
            assert(self.node_ok(from as int));
            assert(self.node_ok(to as int));
        }
        // walk back from `from`: nothing is linked if `to` comes before it
        let mut p: usize = from;
        loop
            invariant
                self.wf(),
                n == self.len(),
                p < n,
                from < n,
                to < n,
                self.head@[p as int] == hx,
                hx == old(self).head@[from as int],
                self.pos@[p as int] <= self.pos@[from as int],
                forall|x: int|
                    0 <= x < n && self.head@[x] == hx && self.pos@[p as int] < self.pos@[x]
                        <= self.pos@[from as int] ==> x != to,
                *self == *old(self),
            ensures
                p < n,
                p != to,
                self.previous@[p as int] is None,
                self.head@[p as int] == hx,
                forall|x: int|
                    0 <= x < n && self.head@[x] == hx && self.pos@[p as int] < self.pos@[x]
                        <= self.pos@[from as int] ==> x != to,
                *self == *old(self),
            decreases self.pos@[p as int],
        {
            if p == to {
                assert(old(self).chain_of(to as int) == old(self).chain_of(from as int));
                return;
            }
            proof {
                assert(self.node_ok(p as int));
            }
            match self.previous[p] {
                Some(q) => {
                    proof {
                        assert(self.node_ok(q as int));
                        assert forall|x: int|
                            0 <= x < n && self.head@[x] == hx && self.pos@[q as int] < self.pos@[x]
                                <= self.pos@[from as int] implies x != to by {
                            if self.pos@[x] == self.pos@[p as int] {
                                self.lemma_unique(x, p as int);
                            }
                        }
                    }
                    p = q;
                },
                None => {
                    break;
                },
            }
        }
        proof {
            assert(self.node_ok(p as int));
            assert forall|x: int|
                0 <= x < n && self.head@[x] == hx && 0 <= self.pos@[x] <= self.pos@[from as int]
                    implies x != to by {
                if self.pos@[x] == 0 {
                    self.lemma_unique(x, p as int);
                }
            }
        }
        // walk forward from `from` to the end of its chain, unless `to` comes after it
        let mut cur: usize = from;
        loop
            invariant
                self.wf(),
                n == self.len(),
                cur < n,
                to < n,
                self.head@[cur as int] == hx,
                hx == old(self).head@[from as int],
                from < n,
                self.last@[cur as int] == self.last@[from as int],
                forall|x: int|
                    0 <= x < n && self.head@[x] == hx && 0 <= self.pos@[x] <= self.pos@[cur as int]
                        ==> x != to,
                *self == *old(self),
            ensures
                cur < n,
                self.next@[cur as int] is None,
                self.head@[cur as int] == hx,
                self.last@[cur as int] == self.last@[from as int],
                forall|x: int|
                    0 <= x < n && self.head@[x] == hx && 0 <= self.pos@[x] <= self.pos@[cur as int]
                        ==> x != to,
                *self == *old(self),
            decreases self.last@[cur as int] - self.pos@[cur as int],
        {
            proof {
                assert(self.node_ok(cur as int));
            }
            match self.next[cur] {
                Some(nx) => {
                    proof {
                        assert(self.node_ok(nx as int));
                    }
                    if nx == to {
                        assert(old(self).chain_of(to as int) == old(self).chain_of(from as int));
                        return;
                    }
                    proof {
                        assert forall|x: int|
                            0 <= x < n && self.head@[x] == hx && 0 <= self.pos@[x] <= self.pos@[nx as int]
                                implies x != to by {
                            if self.pos@[x] == self.pos@[nx as int] {
                                self.lemma_unique(x, nx as int);
                            }
                        }
                    }
                    cur = nx;
                },
                None => {
                    break;
                },
            }
        }
        proof {
            // `to` lies in another chain: every member of this one has been seen
            assert(self.node_ok(cur as int));
            assert(self.node_ok(to as int));
            self.lemma_last(to as int);
            self.lemma_last(cur as int);
        }
        let ghost hy = self.head@[to as int];
        assert(hx != hy) by {
            if hx == hy {
                self.lemma_last(from as int);
                assert(self.pos@[to as int] <= self.last@[to as int]);
            }
        }
        // walk back from `to` to the start of its chain
        let mut h: usize = to;
        loop
            invariant
                self.wf(),
                n == self.len(),
                h < n,
                self.head@[h as int] == hy,
                *self == *old(self),
            ensures
                h < n,
                self.head@[h as int] == hy,
                self.previous@[h as int] is None,
                *self == *old(self),
            decreases self.pos@[h as int],
        {
            proof {
                assert(self.node_ok(h as int));
            }
            match self.previous[h] {
                Some(q) => {
                    proof {
                        assert(self.node_ok(q as int));
                    }
                    h = q;
                },
                None => {
                    break;
                },
            }
        }
        proof {
            assert(self.node_ok(h as int));
            self.lemma_last(h as int);
        }
        assert(h as int == hy);
        let ghost old_pos = self.pos@;
        let ghost old_last = self.last@;
        let ghost old_head = self.head@;
        let ghost t = cur as int;
        let ghost e = old_pos[t];
        let ghost total = e + 1 + old_last[h as int];
        proof {
            assert forall|a: int| 0 <= a < n implies old_last[a] == old_last[old_head[a]] && 0
                <= old_head[a] < n && old_head[old_head[a]] == old_head[a] by {
                self.lemma_last(a);
            }
            assert(old_last[t] == e);
        }
        self.next.set(cur, Some(h));
        self.previous.set(h, Some(cur));
        self.pos = Ghost(
            Seq::new(
                n as nat,
                |a: int|
                    if old_head[a] == hy {
                        old_pos[a] + e + 1
                    } else {
                        old_pos[a]
                    },
            ),
        );
        self.last = Ghost(
            Seq::new(
                n as nat,
                |a: int|
                    if old_head[a] == hy || old_head[a] == hx {
                        total
                    } else {
                        old_last[a]
                    },
            ),
        );
        self.head = Ghost(
            Seq::new(
                n as nat,
                |a: int|
                    if old_head[a] == hy {
                        hx
                    } else {
                        old_head[a]
                    },
            ),
        );
        proof {
            assert(old(self).node_ok(t));
            assert(old(self).node_ok(h as int));
            assert(self.next@ == old(self).next@.update(t, Some(h)));
            assert(self.previous@ == old(self).previous@.update(h as int, Some(cur)));
            assert forall|a: int| 0 <= a < n implies #[trigger] self.node_ok(a) by {
                assert(old(self).node_ok(a));
                old(self).lemma_last(a);
                if let Some(b) = old(self).next@[a as int] {
                    assert(old(self).node_ok(b as int));
                    assert(b != h);
                }
                if let Some(q) = old(self).previous@[a as int] {
                    assert(old(self).node_ok(q as int));
                    assert(q != cur);
                }
                if a != t && old(self).next@[a] is None && old_head[a] == hx {
                    old(self).lemma_unique(a, t);
                }
            }
            assert(self.next@[t] == Some(h));
            assert(self.previous@[h as int] == Some(cur));
            assert(old(self).chain_of(t) == old(self).chain_of(from as int));
            assert(old(self).chain_of(h as int) == old(self).chain_of(to as int));
            assert forall|a: int| 0 <= a < old(self).len() && a != t implies #[trigger] self.next_of(a)
                == old(self).next_of(a) by {}
            assert forall|a: int| 0 <= a < old(self).len() && a != h implies #[trigger] self.previous_of(
                a,
            ) == old(self).previous_of(a) by {}
            assert(self.next_of(t) == Some(h as usize));
            assert(self.previous_of(h as int) == Some(t as usize));
            assert(old(self).next_of(t) is None);
            assert(old(self).previous_of(h as int) is None);
        }
    }
}

} // verus!
