//! A trie of words over the lower-case letters `a` to `z`.

use vstd::prelude::*;
use vstd::string::StringSliceAdditionalSpecFns;

verus! {

/// Whether every byte of `w` is one of the letters `a` to `z`.
pub open spec fn is_lowercase(w: Seq<u8>) -> bool {
    forall|i: int| 0 <= i < w.len() ==> 97 <= #[trigger] w[i] <= 122
}

/// Whether `p` is an initial part of `w`.
pub open spec fn is_prefix(p: Seq<u8>, w: Seq<u8>) -> bool {
    p.len() <= w.len() && w.subrange(0, p.len() as int) == p
}

/// A set of lower-case words, stored letter by letter along shared paths.
pub struct Trie {
    children: Vec<Option<Box<Trie>>>,
    is_end: bool,
}

impl View for Trie {
    type V = Set<Seq<u8>>;

    /// The words that were inserted.
    closed spec fn view(&self) -> Set<Seq<u8>> {
        Set::new(|w: Seq<u8>| self.holds(w))
    }
}

impl Trie {
    /// Whether the path spelled by `w` exists from this node and ends at a
    /// node that closes a word.
    closed spec fn holds(&self, w: Seq<u8>) -> bool
        decreases w.len(),
    {
        if w.len() == 0 {
            self.is_end
        } else {
            let i = w[0] - 97;
            &&& 0 <= i < self.children@.len()
            &&& self.children@[i] is Some
            &&& self.children@[i]->Some_0.holds(w.drop_first())
        }
    }

    /// Whether some word ends at or below this node.
    closed spec fn inhabited(&self) -> bool {
        exists|w: Seq<u8>| self.holds(w)
    }

    /// Whether every node has its 26 slots and every node but the root
    /// leads to the end of some word.
    pub closed spec fn wf(&self) -> bool
        decreases self,
    {
        &&& self.children@.len() == 26
        &&& forall|i: int|
            0 <= i < 26 ==> (#[trigger] self.children@[i] matches Some(c) ==> c.wf() && c.inhabited())
    }

    /// Whether some word below this node begins with `p`.
    closed spec fn extends(&self, p: Seq<u8>) -> bool {
        exists|w: Seq<u8>| self.holds(w) && is_prefix(p, w)
    }

    /// A word with a first letter is held exactly when the child for that
    /// letter holds the rest.
    proof fn lemma_holds_step(&self, w: Seq<u8>)
        requires
            w.len() > 0,
        ensures
            self.holds(w) <==> {
                let i = w[0] - 97;
                &&& 0 <= i < self.children@.len()
                &&& self.children@[i] is Some
                &&& self.children@[i]->Some_0.holds(w.drop_first())
            },
    {
    }

    /// A prefix with a first letter is extended below this node exactly
    /// when the child for that letter extends the rest.
    proof fn lemma_extends_step(&self, p: Seq<u8>)
        requires
            p.len() > 0,
        ensures
            self.extends(p) <==> {
                let i = p[0] - 97;
                &&& 0 <= i < self.children@.len()
                &&& self.children@[i] is Some
                &&& self.children@[i]->Some_0.extends(p.drop_first())
            },
    {
        let i = p[0] - 97;
        if self.extends(p) {
            let w = choose|w: Seq<u8>| self.holds(w) && is_prefix(p, w);
            assert(w.subrange(0, p.len() as int)[0] == p[0]);
            self.lemma_holds_step(w);
            assert(w.drop_first().subrange(0, p.len() - 1) =~= p.drop_first());
            assert(is_prefix(p.drop_first(), w.drop_first()));
        }
        if 0 <= i < self.children@.len() && self.children@[i] is Some
            && self.children@[i]->Some_0.extends(p.drop_first()) {
            let c = self.children@[i]->Some_0;
            let v = choose|v: Seq<u8>| c.holds(v) && is_prefix(p.drop_first(), v);
            let w = seq![p[0]] + v;
            assert(w.drop_first() =~= v);
            self.lemma_holds_step(w);
            assert(w.subrange(0, p.len() as int) =~= p) by {
                assert(v.subrange(0, p.len() - 1) == p.drop_first());
                assert forall|k: int| 0 <= k < p.len() implies w.subrange(0, p.len() as int)[k]
                    == p[k] by {
                    if k > 0 {
                        assert(v.subrange(0, p.len() - 1)[k - 1] == p.drop_first()[k - 1]);
                    }
                }
            }
            assert(self.holds(w) && is_prefix(p, w));
        }
    }

    /// Adds the word `bytes[pos ..]` below this node.
    fn insert_from(&mut self, bytes: &[u8], pos: usize)
        requires
            old(self).wf(),
            pos <= bytes@.len(),
            is_lowercase(bytes@),
        ensures
            final(self).wf(),
            final(self).inhabited(),
            forall|w: Seq<u8>|
                #[trigger] final(self).holds(w) <==> old(self).holds(w) || w == bytes@.skip(
                    pos as int,
                ),
        decreases bytes@.len() - pos,
    {
        let ghost before = *self;
        let ghost rest = bytes@.skip(pos as int);
        if pos == bytes.len() {
            self.is_end = true;
            proof {
                assert(rest =~= Seq::<u8>::empty());
                assert(self.holds(rest));
                assert forall|w: Seq<u8>| #[trigger] self.holds(w) <==> before.holds(w) || w == rest by {
                    if w.len() > 0 {
                        self.lemma_holds_step(w);
                        before.lemma_holds_step(w);
                    } else {
                        assert(w =~= rest);
                    }
                }
            }
            return ;
        }
        let i = (bytes[pos] - 97) as usize;
        let mut child: Box<Trie> = match self.children[i].take() {
            Some(c) => c,
            None => Box::new(Trie::new()),
        };
        let ghost child_before = *child;
        proof {
            if before.children@[i as int] is None {
                assert forall|v: Seq<u8>| !child_before.holds(v) by {
                    assert(!child_before@.contains(v));
                }
            }
        }
        child.insert_from(bytes, pos + 1);
        let ghost child_after = *child;
        self.children[i] = Some(child);
        proof {
            let tail = bytes@.skip(pos + 1);
            assert(rest.drop_first() =~= tail);
            assert(rest[0] == bytes@[pos as int]);
            assert forall|w: Seq<u8>| #[trigger] self.holds(w) <==> before.holds(w) || w == rest by {
                if w.len() > 0 {
                    self.lemma_holds_step(w);
                    before.lemma_holds_step(w);
                    if w[0] - 97 == i {
                        assert(w[0] == rest[0]);
                        if w.drop_first() == tail {
                            assert forall|k: int| 0 <= k < w.len() implies w[k] == rest[k] by {
                                if k > 0 {
                                    assert(w.drop_first()[k - 1] == tail[k - 1]);
                                }
                            }
                            assert(w =~= rest);
                        }
                    }
                }
            }
            assert(self.holds(rest));
            assert forall|k: int| 0 <= k < 26 implies (#[trigger] self.children@[k] matches Some(c)
                ==> c.wf() && c.inhabited()) by {
                if k != i {
                    assert(self.children@[k] == before.children@[k]);
                }
            }
        }
    }

    /// Adds the word `s`.
    pub fn insert(&mut self, s: &str)
        requires
            old(self).wf(),
            is_lowercase(s.spec_bytes()),
        ensures
            final(self).wf(),
            final(self)@ == old(self)@.insert(s.spec_bytes()),
    {
        let bytes = s.as_bytes();
        self.insert_from(bytes, 0);
        proof {
            assert(bytes@.skip(0) =~= bytes@);
            assert(self@ =~= old(self)@.insert(bytes@));
        }
    }

    /// Tells whether the word `s` was inserted.
    pub fn contains(&self, s: &str) -> (r: bool)
        requires
            self.wf(),
            is_lowercase(s.spec_bytes()),
        ensures
            r == self@.contains(s.spec_bytes()),
    {
        let bytes = s.as_bytes();
        let mut node = self;
        let mut pos: usize = 0;
        proof {
            assert(bytes@.skip(0) =~= bytes@);
        }
        while pos < bytes.len()
            invariant
                pos <= bytes@.len(),
                node.wf(),
                is_lowercase(bytes@),
                bytes@ == s.spec_bytes(),
                self.holds(bytes@) == node.holds(bytes@.skip(pos as int)),
            decreases bytes@.len() - pos,
        {
            let i = (bytes[pos] - 97) as usize;
            proof {
                node.lemma_holds_step(bytes@.skip(pos as int));
                assert(bytes@.skip(pos as int)[0] == bytes@[pos as int]);
                assert(bytes@.skip(pos as int).drop_first() =~= bytes@.skip(pos + 1));
            }
            match &node.children[i] {
                Some(next) => {
                    node = next;
                },
                None => {
                    assert(!node.holds(bytes@.skip(pos as int)));
                    assert(!self.holds(bytes@));
                    return false;
                },
            }
            pos += 1;
        }
        proof {
            assert(bytes@.skip(pos as int) =~= Seq::<u8>::empty());
        }
        node.is_end
    }

    /// Tells whether `prefix` is empty or begins some inserted word.
    pub fn starts_with(&self, prefix: &str) -> (r: bool)
        requires
            self.wf(),
            is_lowercase(prefix.spec_bytes()),
        ensures
            r == (prefix.spec_bytes().len() == 0 || exists|w: Seq<u8>|
                self@.contains(w) && is_prefix(prefix.spec_bytes(), w)),
    {
        let bytes = prefix.as_bytes();
        let mut node = self;
        let mut pos: usize = 0;
        proof {
            assert(bytes@.skip(0) =~= bytes@);
        }
        while pos < bytes.len()
            invariant
                pos <= bytes@.len(),
                node.wf(),
                is_lowercase(bytes@),
                pos > 0 ==> node.inhabited(),
                bytes@ == prefix.spec_bytes(),
                self.extends(bytes@) == node.extends(bytes@.skip(pos as int)),
            decreases bytes@.len() - pos,
        {
            let i = (bytes[pos] - 97) as usize;
            proof {
                node.lemma_extends_step(bytes@.skip(pos as int));
                assert(bytes@.skip(pos as int)[0] == bytes@[pos as int]);
                assert(bytes@.skip(pos as int).drop_first() =~= bytes@.skip(pos + 1));
            }
            match &node.children[i] {
                Some(next) => {
                    node = next;
                },
                None => {
                    assert(!node.extends(bytes@.skip(pos as int)));
                    assert(!self.extends(bytes@));
                    return false;
                },
            }
            pos += 1;
        }
        proof {
            if pos > 0 {
                let w = choose|w: Seq<u8>| node.holds(w);
                assert(is_prefix(bytes@.skip(pos as int), w)) by {
                    assert(w.subrange(0, 0) =~= bytes@.skip(pos as int));
                }
                assert(node.extends(bytes@.skip(pos as int)));
            }
        }
        true
    }

    /// An empty trie.
    pub fn new() -> (r: Self)
        ensures
            r.wf(),
            r@ == Set::<Seq<u8>>::empty(),
    {
        let mut children: Vec<Option<Box<Trie>>> = Vec::new();
        let mut i: usize = 0;
        while i < 26
            invariant
                i <= 26,
                children@.len() == i,
                forall|k: int| 0 <= k < i ==> #[trigger] children@[k] is None,
            decreases 26 - i,
        {
            children.push(None);
            i += 1;
        }
        let r = Trie { children, is_end: false };
        proof {
            assert forall|w: Seq<u8>| !r.holds(w) by {
                reveal_with_fuel(Trie::holds, 2);
            }
            assert(r@ =~= Set::<Seq<u8>>::empty());
        }
        r
    }
}

} // verus!
