//! Disjoint sets of indices, by union-find with path compression.

use vstd::prelude::*;

verus! {

/// Disjoint sets over `0..n`. `rep` maps each index to the representative of its set;
/// `height` bounds the number of links from an index to it.
pub struct Uf {
    pub parent: Vec<usize>,
    pub rep: Ghost<Seq<usize>>,
    pub height: Ghost<Seq<nat>>,
}

/// The representatives after the set of `rb` has joined that of `ra`.
pub open spec fn merged(rep: Seq<usize>, ra: usize, rb: usize) -> Seq<usize> {
    Seq::new(
        rep.len(),
        |x: int|
            if rep[x] == rb {
                ra
            } else {
                rep[x]
            },
    )
}

/// Whether `rep` maps every index to an index that stands for itself.
pub open spec fn reps_ok(rep: Seq<usize>) -> bool {
    forall|x: int|
        0 <= x < rep.len() ==> (#[trigger] rep[x]) < rep.len() && rep[rep[x] as int] == rep[x]
}

/// Whether the link of `x` stays within its set and leads closer to the representative.
pub open spec fn link_ok(p: Seq<usize>, r: Seq<usize>, h: Seq<nat>, x: int) -> bool {
    &&& p[x] < p.len()
    &&& r[p[x] as int] == r[x]
    &&& p[x] == x <==> r[x] == x
    &&& r[x] == x ==> h[x] == 0
    &&& p[x] != x ==> h[p[x] as int] < h[x]
}

impl Uf {
    /// Links lead towards the representative, and only representatives link to themselves.
    pub open spec fn wf(&self) -> bool {
        let p = self.parent@;
        let r = self.rep@;
        let h = self.height@;
        &&& p.len() == r.len() == h.len()
        &&& reps_ok(r)
        &&& forall|x: int| 0 <= x < p.len() ==> #[trigger] link_ok(p, r, h, x)
    }

    /// Every index of `0..n` in a set of its own.
    pub fn new(n: usize) -> (r: Self)
        ensures
            r.wf(),
            r.rep@ == Seq::new(n as nat, |x: int| x as usize),
    {
        let mut parent: Vec<usize> = Vec::new();
        let mut i: usize = 0;
        while i < n
            invariant
                i <= n,
                parent@.len() == i,
                forall|x: int| 0 <= x < i ==> #[trigger] parent@[x] == x,
            decreases n - i,
        {
            parent.push(i);
            i += 1;
        }
        Uf {
            parent,
            rep: Ghost(Seq::new(n as nat, |x: int| x as usize)),
            height: Ghost(Seq::new(n as nat, |x: int| 0nat)),
        }
    }

    /// The representative of the set of `x`; shortens the links on the way.
    pub fn find(&mut self, x: usize) -> (r: usize)
        requires
            old(self).wf(),
            x < old(self).rep@.len(),
        ensures
            final(self).wf(),
            final(self).rep@ == old(self).rep@,
            r == old(self).rep@[x as int],
            r < old(self).rep@.len(),
            old(self).rep@[r as int] == r,
    {
        let mut r: usize = x;
        while self.parent[r] != r
            invariant
                self.wf(),
                self.rep@ == old(self).rep@,
                r < self.rep@.len(),
                x < self.rep@.len(),
                self.rep@[r as int] == self.rep@[x as int],
            decreases self.height@[r as int],
        {
            assert(link_ok(self.parent@, self.rep@, self.height@, r as int));
            r = self.parent[r];
        }
        assert(link_ok(self.parent@, self.rep@, self.height@, r as int));
        let mut c: usize = x;
        while self.parent[c] != r
            invariant
                self.wf(),
                self.rep@ == old(self).rep@,
                r < self.rep@.len(),
                c < self.rep@.len(),
                self.rep@[r as int] == r,
                self.rep@[c as int] == r,
            decreases self.height@[c as int],
        {
            let next: usize = self.parent[c];
            let ghost p = self.parent@;
            proof {
                assert(link_ok(p, self.rep@, self.height@, c as int));
                assert(link_ok(p, self.rep@, self.height@, r as int));
            }
            self.parent.set(c, r);
            assert forall|y: int| 0 <= y < p.len() implies #[trigger] link_ok(
                self.parent@,
                self.rep@,
                self.height@,
                y,
            ) by {
                assert(link_ok(p, self.rep@, self.height@, y));
            }
            c = next;
        }
        r
    }

    /// Lets the set of the representative `rb` join that of the representative `ra`.
    pub fn join(&mut self, ra: usize, rb: usize)
        requires
            old(self).wf(),
            ra < old(self).rep@.len(),
            rb < old(self).rep@.len(),
            ra != rb,
            old(self).rep@[ra as int] == ra,
            old(self).rep@[rb as int] == rb,
        ensures
            final(self).wf(),
            final(self).rep@ == merged(old(self).rep@, ra, rb),
    {
        let ghost rep = self.rep@;
        let ghost h = self.height@;
        let ghost p = self.parent@;
        self.parent.set(rb, ra);
        self.rep = Ghost(merged(rep, ra, rb));
        self.height = Ghost(
            Seq::new(
                h.len(),
                |x: int|
                    if rep[x] == rb {
                        h[x] + 1
                    } else {
                        h[x]
                    },
            ),
        );
        proof {
            assert(link_ok(p, rep, h, ra as int));
            assert(link_ok(p, rep, h, rb as int));
            assert forall|y: int| 0 <= y < p.len() implies #[trigger] link_ok(
                self.parent@,
                self.rep@,
                self.height@,
                y,
            ) by {
                assert(link_ok(p, rep, h, y));
            }
        }
    }
}

} // verus!
