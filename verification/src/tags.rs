//! A small owned collection for manipulating a set of tags before writing
//! them, or after reading them.

use vstd::prelude::*;

verus! {

/// An unordered set of tags, each held once.
pub struct Tags(Vec<String>);

impl Tags {
    /// The set of tags held.
    pub closed spec fn view(&self) -> Set<Seq<char>> {
        Set::new(|t: Seq<char>| crate::utils::strs_view(self.0@).contains(t))
    }

    /// The backing list holds each tag at most once.
    pub closed spec fn wf(&self) -> bool {
        forall|i: int, j: int|
            0 <= i < j < self.0@.len() ==> (#[trigger] self.0@[i])@ != (#[trigger] self.0@[j])@
    }

    /// An empty set of tags.
    pub fn new() -> (r: Tags)
        ensures
            r.wf(),
            r@ == Set::<Seq<char>>::empty(),
    {
        let r = Tags(Vec::new());
        proof {
            assert(r@ =~= Set::<Seq<char>>::empty());
        }
        r
    }

    /// Whether the set holds `tag`.
    pub fn has_tag(&self, tag: &String) -> (r: bool)
        ensures
            r == self@.contains(tag@),
    {
        let n = self.0.len();
        let mut i: usize = 0;
        while i < n
            invariant
                i <= n,
                n == self.0@.len(),
                forall|k: int| 0 <= k < i ==> self.0@[k]@ != tag@,
            decreases n - i,
        {
            if self.0[i].eq(tag) {
                proof {
                    assert(crate::utils::strs_view(self.0@)[i as int] == tag@);
                }
                return true;
            }
            i = i + 1;
        }
        proof {
            assert(!self@.contains(tag@)) by {
                if crate::utils::strs_view(self.0@).contains(tag@) {
                    let k = choose|k: int|
                        0 <= k < self.0@.len() && crate::utils::strs_view(self.0@)[k] == tag@;
                    assert(self.0@[k]@ == tag@);
                }
            }
        }
        false
    }

    /// Add `tag` to the set; a tag already present stays held once.
    pub fn add_tag(&mut self, tag: String)
        requires
            old(self).wf(),
        ensures
            final(self).wf(),
            final(self)@ == old(self)@.insert(tag@),
    {
        if !self.has_tag(&tag) {
            let ghost pre = self.0@;
            self.0.push(tag);
            proof {
                assert(final(self)@ =~= old(self)@.insert(tag@)) by {
                    assert(forall|k: int|
                        0 <= k < pre.len() ==> crate::utils::strs_view(self.0@)[k] == #[trigger] crate::utils::strs_view(
                            pre,
                        )[k]);
                    assert(crate::utils::strs_view(self.0@)[pre.len() as int] == tag@);
                    assert forall|t: Seq<char>| #[trigger]
                        crate::utils::strs_view(self.0@).contains(t) implies crate::utils::strs_view(
                        pre,
                    ).contains(t) || t == tag@ by {
                        let k = choose|k: int|
                            0 <= k < self.0@.len() && crate::utils::strs_view(self.0@)[k] == t;
                        if k < pre.len() {
                            assert(crate::utils::strs_view(pre)[k] == t);
                        }
                    }
                }
                assert(forall|i: int, j: int|
                    0 <= i < j < pre.len() ==> (#[trigger] self.0@[i])@ != (#[trigger] self.0@[j])@);
                assert(forall|i: int|
                    0 <= i < pre.len() ==> #[trigger] self.0@[i]@ != tag@) by {
                    assert(forall|i: int|
                        0 <= i < pre.len() ==> crate::utils::strs_view(pre)[i] == #[trigger] self.0@[i]@);
                }
            }
        } else {
            proof {
                assert(final(self)@ =~= old(self)@.insert(tag@));
            }
        }
    }

    /// Remove `tag` from the set; a tag not present changes nothing.
    pub fn remove_tag(&mut self, tag: &String)
        requires
            old(self).wf(),
        ensures
            final(self).wf(),
            final(self)@ == old(self)@.remove(tag@),
    {
        let n = self.0.len();
        let mut i: usize = 0;
        while i < n
            invariant
                i <= n,
                n == self.0@.len(),
                self.0@ == old(self).0@,
                old(self).wf(),
                forall|k: int| 0 <= k < i ==> self.0@[k]@ != tag@,
            decreases n - i,
        {
            if self.0[i].eq(tag) {
                let ghost pre = self.0@;
                self.0.remove(i);
                proof {
                    pre.remove_ensures(i as int);
                    assert(pre[i as int]@ == tag@);
                    assert forall|a: int, b: int|
                        0 <= a < b < self.0@.len() implies (#[trigger] self.0@[a])@ != (
                    #[trigger] self.0@[b])@ by {
                        let pa: int = if a < i {
                            a
                        } else {
                            a + 1
                        };
                        let pb: int = if b < i {
                            b
                        } else {
                            b + 1
                        };
                        assert(self.0@[a] == pre[pa]);
                        assert(self.0@[b] == pre[pb]);
                        assert(old(self).0@[pa]@ != old(self).0@[pb]@);
                    }
                    assert(final(self)@ =~= old(self)@.remove(tag@)) by {
                        assert forall|t: Seq<char>| #[trigger]
                            crate::utils::strs_view(self.0@).contains(t) implies crate::utils::strs_view(
                            pre,
                        ).contains(t) && t != tag@ by {
                            let k = choose|k: int|
                                0 <= k < self.0@.len() && crate::utils::strs_view(self.0@)[k] == t;
                            if k < i {
                                assert(pre[k]@ == t);
                                assert(crate::utils::strs_view(pre)[k] == t);
                            } else {
                                assert(pre[k + 1]@ == t);
                                assert(crate::utils::strs_view(pre)[k + 1] == t);
                                assert(old(self).0@[i as int]@ != old(self).0@[k + 1]@);
                                assert(t != tag@);
                            }
                        }
                        assert forall|t: Seq<char>|
                            crate::utils::strs_view(pre).contains(t) && t != tag@ implies #[trigger] crate::utils::strs_view(
                            self.0@,
                        ).contains(t) by {
                            let k = choose|k: int|
                                0 <= k < pre.len() && crate::utils::strs_view(pre)[k] == t;
                            if k < i {
                                assert(self.0@[k]@ == t);
                                assert(crate::utils::strs_view(self.0@)[k] == t);
                            } else {
                                assert(k != i);
                                assert(self.0@[k - 1]@ == t);
                                assert(crate::utils::strs_view(self.0@)[k - 1] == t);
                            }
                        }
                    }
                }
                return ;
            }
            i = i + 1;
        }
        proof {
            assert(!self@.contains(tag@)) by {
                if crate::utils::strs_view(self.0@).contains(tag@) {
                    let k = choose|k: int|
                        0 <= k < self.0@.len() && crate::utils::strs_view(self.0@)[k] == tag@;
                    assert(self.0@[k]@ == tag@);
                }
            }
            assert(final(self)@ =~= old(self)@.remove(tag@));
        }
    }

    /// Add `tag` when absent, remove it when present.
    pub fn toggle_tag(&mut self, tag: String)
        requires
            old(self).wf(),
        ensures
            final(self).wf(),
            old(self)@.contains(tag@) ==> final(self)@ == old(self)@.remove(tag@),
            !old(self)@.contains(tag@) ==> final(self)@ == old(self)@.insert(tag@),
    {
        if self.has_tag(&tag) {
            self.remove_tag(&tag);
        } else {
            self.add_tag(tag);
        }
    }
}

} // verus!
