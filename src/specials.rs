use vstd::prelude::*;

verus! {

/// The special tiles of a maze, as (row, column): each makes the camera
/// roll over once, when the walker first stops on it.
pub struct SpecialTiles {
    pub tiles: Vec<(usize, usize)>,
}

impl View for SpecialTiles {
    type V = Set<(usize, usize)>;

    open spec fn view(&self) -> Set<(usize, usize)> {
        self.tiles@.to_set()
    }
}

/// `kept` holds the entries of `all` but `t`.
spec fn kept_except(kept: Seq<(usize, usize)>, all: Seq<(usize, usize)>, t: (usize, usize)) -> bool {
    forall|c: (usize, usize)| #[trigger] kept.contains(c) <==> c != t && all.contains(c)
}

impl SpecialTiles {
    /// No special tile.
    pub fn new() -> (r: SpecialTiles)
        ensures
            r@ == Set::<(usize, usize)>::empty(),
    {
        let r = SpecialTiles { tiles: Vec::new() };
        assert(r@ =~= Set::<(usize, usize)>::empty());
        r
    }

    /// Marks `t` as special.
    pub fn insert(&mut self, t: (usize, usize))
        ensures
            final(self)@ == old(self)@.insert(t),
    {
        self.tiles.push(t);
        proof {
            let s0 = old(self).tiles@;
            let s1 = self.tiles@;
            assert forall|c: (usize, usize)| s1.contains(c) <==> s0.contains(c) || c == t by {
                if s0.contains(c) {
                    let k = choose|k: int| 0 <= k < s0.len() && s0[k] == c;
                    assert(s1[k] == c);
                }
                if c == t {
                    assert(s1[s0.len() as int] == c);
                }
                if s1.contains(c) && c != t {
                    let k = choose|k: int| 0 <= k < s1.len() && s1[k] == c;
                    assert(s0[k] == c);
                }
            }
            assert(self@ =~= old(self)@.insert(t));
        }
    }

    /// `t` is special.
    pub fn contains(&self, t: (usize, usize)) -> (r: bool)
        ensures
            r == self@.contains(t),
    {
        let mut k: usize = 0;
        while k < self.tiles.len()
            invariant
                k <= self.tiles@.len(),
                forall|i: int| 0 <= i < k ==> self.tiles@[i] != t,
            decreases self.tiles@.len() - k,
        {
            let u = self.tiles[k];
            if u.0 == t.0 && u.1 == t.1 {
                proof {
                    assert(self.tiles@[k as int] == t);
                }
                return true;
            }
            k = k + 1;
        }
        false
    }

    /// `t` is no longer special.
    pub fn remove(&mut self, t: (usize, usize))
        ensures
            final(self)@ == old(self)@.remove(t),
    {
        let mut kept: Vec<(usize, usize)> = Vec::new();
        let mut k: usize = 0;
        while k < self.tiles.len()
            invariant
                k <= self.tiles@.len(),
                kept_except(kept@, self.tiles@.subrange(0, k as int), t),
            decreases self.tiles@.len() - k,
        {
            let u = self.tiles[k];
            let ghost before = kept@;
            proof {
                assert(kept_except(before, self.tiles@.subrange(0, k as int), t));
            }
            let ghost pre = self.tiles@.subrange(0, k as int);
            let ghost post = self.tiles@.subrange(0, k + 1);
            if !(u.0 == t.0 && u.1 == t.1) {
                kept.push(u);
            }
            proof {
                assert(post =~= pre.push(u));
                assert forall|c: (usize, usize)| #[trigger] kept@.contains(c) <==> c != t && post.contains(c) by {
                    if pre.contains(c) {
                        let i = choose|i: int| 0 <= i < pre.len() && pre[i] == c;
                        assert(post[i] == c);
                    }
                    if post.contains(c) && c != u {
                        let i = choose|i: int| 0 <= i < post.len() && post[i] == c;
                        assert(pre[i] == c);
                    }
                    if c == u {
                        assert(post[pre.len() as int] == c);
                    }
                    if before.contains(c) {
                        let i = choose|i: int| 0 <= i < before.len() && before[i] == c;
                        assert(kept@[i] == c);
                    }
                    if kept@.contains(c) && c != u {
                        let i = choose|i: int| 0 <= i < kept@.len() && kept@[i] == c;
                        assert(before[i] == c);
                    }
                    if c == u && c != t {
                        assert(kept@[kept@.len() - 1] == c);
                    }
                }
            }
            proof {
                assert(kept_except(kept@, post, t));
            }
            k = k + 1;
            proof {
                assert(self.tiles@.subrange(0, k as int) == post);
            }
        }
        proof {
            assert(self.tiles@.subrange(0, self.tiles@.len() as int) =~= self.tiles@);
        }
        self.tiles = kept;
        proof {
            assert(self@ =~= old(self)@.remove(t));
        }
    }
}

} // verus!
