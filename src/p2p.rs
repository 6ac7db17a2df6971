use vstd::prelude::*;

use crate::text::str_eq;

verus! {

/// The direct sessions by peer id: at most one per peer.
pub struct SessionTable<C> {
    entries: Vec<(String, C)>,
}

impl<C> SessionTable<C> {
    pub closed spec fn wf(&self) -> bool {
        forall|i: int, j: int|
            0 <= i < j < self.entries@.len() ==> #[trigger] self.entries@[i].0@ != #[trigger] self.entries@[j].0@
    }

    /// The peers with a session.
    pub closed spec fn peers(&self) -> Set<Seq<char>> {
        Set::new(|id: Seq<char>| exists|i: int| 0 <= i < self.entries@.len() && self.entries@[i].0@ == id)
    }

    /// The session of peer `id`.
    pub closed spec fn session(&self, id: Seq<char>) -> C {
        self.entries@[choose|i: int| 0 <= i < self.entries@.len() && self.entries@[i].0@ == id].1
    }

    proof fn lemma_at(&self, i: int)
        requires
            self.wf(),
            0 <= i < self.entries@.len(),
        ensures
            self.peers().contains(self.entries@[i].0@),
            self.session(self.entries@[i].0@) == self.entries@[i].1,
    {
        let id = self.entries@[i].0@;
        let k = choose|k: int| 0 <= k < self.entries@.len() && self.entries@[k].0@ == id;
        if k < i {
            assert(self.entries@[k].0@ != self.entries@[i].0@);
        } else if k > i {
            assert(self.entries@[i].0@ != self.entries@[k].0@);
        }
    }

    pub fn new() -> (r: SessionTable<C>)
        ensures
            r.wf(),
            r.peers() == Set::<Seq<char>>::empty(),
    {
        let r = SessionTable { entries: Vec::new() };
        assert(r.peers() =~= Set::<Seq<char>>::empty());
        r
    }

    fn index_of(&self, id: &str) -> (r: Option<usize>)
        ensures
            r matches Some(i) ==> i < self.entries@.len() && self.entries@[i as int].0@ == id@,
            r is None ==> !self.peers().contains(id@),
    {
        let mut i: usize = 0;
        while i < self.entries.len()
            invariant
                i <= self.entries@.len(),
                forall|k: int| 0 <= k < i ==> self.entries@[k].0@ != id@,
            decreases self.entries@.len() - i,
        {
            if str_eq(self.entries[i].0.as_str(), id) {
                return Some(i);
            }
            i = i + 1;
        }
        None
    }

    /// Whether peer `id` has a session; a connect attempt to it is then
    /// nothing to do.
    pub fn contains(&self, id: &str) -> (r: bool)
        ensures
            r == self.peers().contains(id@),
    {
        self.index_of(id).is_some()
    }

    /// The session of peer `id`, if any.
    pub fn get(&self, id: &str) -> (r: Option<&C>)
        requires
            self.wf(),
        ensures
            r matches Some(c) ==> self.peers().contains(id@) && *c == self.session(id@),
            r is None ==> !self.peers().contains(id@),
    {
        match self.index_of(id) {
            Some(i) => {
                proof {
                    self.lemma_at(i as int);
                }
                Some(&self.entries[i].1)
            },
            None => None,
        }
    }

    /// Records the session of peer `id`, replacing an older one.
    pub fn insert(&mut self, id: String, c: C)
        requires
            old(self).wf(),
        ensures
            final(self).wf(),
            final(self).peers() == old(self).peers().insert(id@),
            final(self).session(id@) == c,
            forall|p: Seq<char>| p != id@ && old(self).peers().contains(p) ==> final(self).session(p) == old(self).session(p),
    {
        let ghost idv = id@;
        let ghost cv = c;
        match self.index_of(id.as_str()) {
            Some(i) => {
                self.entries.set(i, (id, c));
                proof {
                    let ii = i as int;
                    assert forall|a: int, b: int| 0 <= a < b < self.entries@.len() implies #[trigger] self.entries@[a].0@
                        != #[trigger] self.entries@[b].0@ by {
                        assert(old(self).entries@[a].0@ != old(self).entries@[b].0@);
                    }
                    assert forall|p: Seq<char>| #[trigger] self.peers().contains(p) == old(self).peers().insert(idv).contains(p) by {
                        if self.peers().contains(p) {
                            let k = choose|k: int| 0 <= k < self.entries@.len() && self.entries@[k].0@ == p;
                            assert(old(self).entries@[k].0@ == p);
                        }
                        if old(self).peers().contains(p) {
                            let k = choose|k: int| 0 <= k < old(self).entries@.len() && old(self).entries@[k].0@ == p;
                            assert(self.entries@[k].0@ == p);
                        }
                        if p == idv {
                            assert(self.entries@[ii].0@ == p);
                        }
                    }
                    assert(self.peers() =~= old(self).peers().insert(idv));
                    self.lemma_at(ii);
                    assert forall|p: Seq<char>| p != idv && old(self).peers().contains(p) implies self.session(p) == old(self).session(p) by {
                        let k = choose|k: int| 0 <= k < old(self).entries@.len() && old(self).entries@[k].0@ == p;
                        old(self).lemma_at(k);
                        self.lemma_at(k);
                    }
                }
            },
            None => {
                self.entries.push((id, c));
                proof {
                    let n = old(self).entries@.len() as int;
                    assert forall|a: int, b: int| 0 <= a < b < self.entries@.len() implies #[trigger] self.entries@[a].0@
                        != #[trigger] self.entries@[b].0@ by {
                        if b < n {
                            assert(old(self).entries@[a].0@ != old(self).entries@[b].0@);
                        } else {
                            assert(self.entries@[a] == old(self).entries@[a]);
                        }
                    }
                    assert forall|p: Seq<char>| #[trigger] self.peers().contains(p) == old(self).peers().insert(idv).contains(p) by {
                        if self.peers().contains(p) {
                            let k = choose|k: int| 0 <= k < self.entries@.len() && self.entries@[k].0@ == p;
                            if k < n {
                                assert(old(self).entries@[k].0@ == p);
                            }
                        }
                        if old(self).peers().contains(p) {
                            let k = choose|k: int| 0 <= k < old(self).entries@.len() && old(self).entries@[k].0@ == p;
                            assert(self.entries@[k].0@ == p);
                        }
                        if p == idv {
                            assert(self.entries@[n].0@ == p);
                        }
                    }
                    assert(self.peers() =~= old(self).peers().insert(idv));
                    self.lemma_at(n);
                    assert forall|p: Seq<char>| p != idv && old(self).peers().contains(p) implies self.session(p) == old(self).session(p) by {
                        let k = choose|k: int| 0 <= k < old(self).entries@.len() && old(self).entries@[k].0@ == p;
                        old(self).lemma_at(k);
                        self.lemma_at(k);
                    }
                }
            },
        }
    }

    /// Forgets the session of peer `id`, returning it.
    pub fn remove(&mut self, id: &str) -> (r: Option<C>)
        requires
            old(self).wf(),
        ensures
            final(self).wf(),
            final(self).peers() == old(self).peers().remove(id@),
            r matches Some(c) ==> old(self).peers().contains(id@) && c == old(self).session(id@),
            r is None ==> !old(self).peers().contains(id@),
            forall|p: Seq<char>| p != id@ && old(self).peers().contains(p) ==> final(self).session(p) == old(self).session(p),
    {
        match self.index_of(id) {
            None => {
                assert(self.peers() =~= old(self).peers().remove(id@));
                None
            },
            Some(i) => {
                proof {
                    self.lemma_at(i as int);
                }
                let (_, c) = self.entries.remove(i);
                proof {
                    let ii = i as int;
                    let n = old(self).entries@.len() as int;
                    let s0 = old(self).entries@;
                    assert forall|a: int, b: int| 0 <= a < b < self.entries@.len() implies #[trigger] self.entries@[a].0@
                        != #[trigger] self.entries@[b].0@ by {
                        let a0 = if a < ii { a } else { a + 1 };
                        let b0 = if b < ii { b } else { b + 1 };
                        assert(s0[a0].0@ != s0[b0].0@);
                    }
                    assert forall|p: Seq<char>| #[trigger] self.peers().contains(p) == old(self).peers().remove(id@).contains(p) by {
                        if self.peers().contains(p) {
                            let k = choose|k: int| 0 <= k < self.entries@.len() && self.entries@[k].0@ == p;
                            let k0 = if k < ii { k } else { k + 1 };
                            assert(s0[k0].0@ == p);
                            if p == id@ {
                                if k0 < ii {
                                    assert(s0[k0].0@ != s0[ii].0@);
                                } else {
                                    assert(s0[ii].0@ != s0[k0].0@);
                                }
                            }
                        }
                        if old(self).peers().contains(p) && p != id@ {
                            let k = choose|k: int| 0 <= k < n && s0[k].0@ == p;
                            assert(k != ii);
                            let k1 = if k < ii { k } else { k - 1 };
                            assert(self.entries@[k1].0@ == p);
                        }
                    }
                    assert(self.peers() =~= old(self).peers().remove(id@));
                    assert forall|p: Seq<char>| p != id@ && old(self).peers().contains(p) implies self.session(p) == old(self).session(p) by {
                        let k = choose|k: int| 0 <= k < n && s0[k].0@ == p;
                        assert(k != ii);
                        old(self).lemma_at(k);
                        let k1 = if k < ii { k } else { k - 1 };
                        self.lemma_at(k1);
                    }
                }
                Some(c)
            },
        }
    }
}

} // verus!
