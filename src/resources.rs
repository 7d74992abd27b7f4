use vstd::prelude::*;
use std::rc::Rc;

verus! {

/// Produces a resource of type `R` from its name, for instance by reading a file.
pub trait ResourceLoader<'a, R> {
    fn load(&'a self, name: &str) -> Result<R, String>;
}

/// Relies on Rc::clone: a second pointer to the same value.
#[verifier::external_body]
fn share<R>(r: &Rc<R>) -> (s: Rc<R>)
    ensures
        s == *r,
{
    Rc::clone(r)
}

/// Loads resources by name through a loader, once each: later requests for a name get the
/// resource that the first successful load produced.
pub struct ResourceManager<'a, R, L: ResourceLoader<'a, R>> {
    loader: &'a L,
    cache: Vec<(String, Rc<R>)>,
}

impl<'a, R, L: ResourceLoader<'a, R>> ResourceManager<'a, R, L> {
    /// The cached names with their resources, in the order they were first loaded.
    pub closed spec fn entries(&self) -> Seq<(Seq<char>, Rc<R>)> {
        self.cache@.map_values(|p: (String, Rc<R>)| (p.0@, p.1))
    }

    pub closed spec fn spec_loader(&self) -> &'a L {
        self.loader
    }

    /// The position of `name` in the cache, if it is there.
    pub open spec fn position(&self, name: Seq<char>) -> Option<int> {
        if exists|i: int| 0 <= i < self.entries().len() && #[trigger] self.entries()[i].0 == name {
            Some(choose|i: int| 0 <= i < self.entries().len() && #[trigger] self.entries()[i].0 == name)
        } else {
            None
        }
    }

    /// Each name is cached at most once.
    pub open spec fn wf(&self) -> bool {
        forall|i: int, j: int|
            0 <= i < j < self.entries().len() ==> #[trigger] self.entries()[i].0
                != #[trigger] self.entries()[j].0
    }

    pub fn new(loader: &'a L) -> (r: Self)
        ensures
            r.wf(),
            r.spec_loader() == loader,
            r.entries() == Seq::<(Seq<char>, Rc<R>)>::empty(),
    {
        let r = ResourceManager { loader, cache: Vec::new() };
        assert(r.entries() =~= Seq::<(Seq<char>, Rc<R>)>::empty());
        r
    }

    /// The resource called `name`: the cached one when there is one; otherwise the loader's
    /// result, which is cached when the load succeeds.
    pub fn load(&mut self, name: &str) -> (r: Result<Rc<R>, String>)
        requires
            old(self).wf(),
        ensures
            final(self).wf(),
            final(self).spec_loader() == old(self).spec_loader(),
            old(self).position(name@) matches Some(i) ==> r == Ok::<Rc<R>, String>(
                old(self).entries()[i].1,
            ) && final(self).entries() == old(self).entries(),
            old(self).position(name@) is None && r is Ok ==> final(self).entries() == old(
                self,
            ).entries().push((name@, r->Ok_0)),
            old(self).position(name@) is None && r is Err ==> final(self).entries() == old(
                self,
            ).entries(),
    {
        let key = name.to_owned();
        let mut i: usize = 0;
        while i < self.cache.len()
            invariant
                i <= self.cache@.len(),
                key@ == name@,
                self.wf(),
                forall|j: int| 0 <= j < i ==> #[trigger] self.entries()[j].0 != name@,
            decreases self.cache@.len() - i,
        {
            if self.cache[i].0 == key {
                let found = share(&self.cache[i].1);
                proof {
                    assert(self.entries()[i as int].0 == name@);
                    let p = self.position(name@);
                    assert(p is Some);
                    let k = p->Some_0;
                    if k != i {
                        if k < i {
                            assert(self.entries()[k].0 != name@);
                        } else {
                            assert(self.entries()[i as int].0 != self.entries()[k].0);
                        }
                    }
                }
                return Ok(found);
            }
            i = i + 1;
        }
        match self.loader.load(name) {
            Ok(resource) => {
                let resource = Rc::new(resource);
                let kept = share(&resource);
                self.cache.push((key, resource));
                proof {
                    assert(self.entries() =~= old(self).entries().push((name@, kept)));
                }
                Ok(kept)
            },
            Err(e) => Err(e),
        }
    }
}

} // verus!
