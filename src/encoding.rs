use crate::abstraction::Abstraction;
use crate::lookup::Lookup;
use vstd::prelude::*;

verus! {

/// The abstraction of every isomorphism of every street: the encoders of
/// the four streets taken together.
pub struct Encoding {
    map: Lookup,
}

impl View for Encoding {
    type V = Map<u64, u64>;

    closed spec fn view(&self) -> Map<u64, u64> {
        self.map@
    }
}

impl Encoding {
    pub closed spec fn wf(&self) -> bool {
        self.map.wf()
    }

    pub fn new() -> (r: Encoding)
        ensures
            r.wf(),
            r@ == Map::<u64, u64>::empty(),
    {
        Encoding { map: Lookup::new() }
    }

    /// Adds the entries of one street's encoder.
    pub fn extend(&mut self, street: &Lookup)
        requires
            old(self).wf(),
            street.wf(),
        ensures
            final(self).wf(),
            final(self)@ == old(self)@.union_prefer_right(street@),
    {
        proof {
            street.lemma_lookup();
        }
        let n = street.len();
        proof {
            assert(street@.dom() =~= street.isos().to_set());
            street.isos().unique_seq_to_set();
        }
        let ghost start = self@;
        let mut i: usize = 0;
        while i < n
            invariant
                self.wf(),
                street.wf(),
                n == street.isos().len(),
                street.isos().len() == street.abss().len(),
                i <= n,
                forall|j: int|
                    0 <= j < n ==> street@.contains_key(#[trigger] street.isos()[j]) && street@[street.isos()[j]]
                        == street.abss()[j],
                forall|k: u64| street@.contains_key(k) <==> street.isos().contains(k),
                forall|a: int, b: int| 0 <= a < b < n ==> street.isos()[a] < street.isos()[b],
                self@ == start.union_prefer_right(
                    street@.restrict(street.isos().subrange(0, i as int).to_set()),
                ),
            decreases n - i,
        {
            let iso = street.iso_at(i);
            let id = street.abs_at(i);
            let ghost before = self@;
            match Abstraction::from_id(id) {
                Some(a) => {
                    self.map.assign(&a, iso);
                },
                None => {
                    proof {
                        street.lemma_lookup();
                        assert(street@.contains_key(street.isos()[i as int]));
                    }
                },
            }
            proof {
                let pre = street.isos().subrange(0, i as int);
                let post = street.isos().subrange(0, i as int + 1);
                assert(post =~= pre.push(iso));
                assert forall|x: u64| post.contains(x) <==> pre.contains(x) || x == iso by {
                    if post.contains(x) {
                        let t = choose|t: int| 0 <= t < post.len() && post[t] == x;
                        if t < i {
                            assert(pre[t] == x);
                        }
                    }
                    if pre.contains(x) {
                        let t = choose|t: int| 0 <= t < pre.len() && pre[t] == x;
                        assert(post[t] == x);
                    }
                    if x == iso {
                        assert(post[i as int] == x);
                    }
                }
                assert(post.to_set() =~= pre.to_set().insert(iso));
                assert(self@ =~= start.union_prefer_right(street@.restrict(post.to_set())));
            }
            i = i + 1;
        }
        proof {
            assert(street.isos().subrange(0, n as int) =~= street.isos());
            assert(street.isos().to_set() =~= street@.dom());
            assert(street@.restrict(street@.dom()) =~= street@);
        }
    }

    /// The abstraction of an isomorphism, if any.
    pub fn abstraction(&self, iso: u64) -> (r: Option<Abstraction>)
        requires
            self.wf(),
        ensures
            r is Some <==> self@.contains_key(iso),
            r matches Some(a) ==> a.spec_id() == self@[iso],
    {
        self.map.get(iso)
    }
}

} // verus!
