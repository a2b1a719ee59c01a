//! The resolver maps (specifier, importing directory) to a canonical module
//! identifier by joining the specifier under the directory and asking storage
//! whether the candidate exists. It is deterministic for identical inputs and
//! single-flights: the underlying lookup for a pair is performed once, its
//! result cached for the build's lifetime.
use vstd::prelude::*;
use crate::bytes::{bytes_eq, copy_bytes, join_path, joined, opt_bytes};
use crate::store::FileStore;

verus! {

pub struct CacheEntry {
    pub specifier: Vec<u8>,
    pub dir: Vec<u8>,
    pub found: Option<Vec<u8>>,
}

pub struct Resolver {
    pub cwd: Vec<u8>,
    pub cache: Vec<CacheEntry>,
}

/// The underlying lookup: the joined candidate, if storage has it.
pub open spec fn resolve_spec(fs: FileStore, dir: Seq<u8>, s: Seq<u8>) -> Option<Seq<u8>> {
    if fs.lookup(joined(dir, s)).is_some() {
        Some(joined(dir, s))
    } else {
        None
    }
}

/// First cached answer for a (specifier, directory) pair, if any.
pub open spec fn cache_lookup(c: Seq<CacheEntry>, dir: Seq<u8>, s: Seq<u8>) -> Option<
    Option<Seq<u8>>,
>
    decreases c.len(),
{
    if c.len() == 0 {
        None
    } else if c[0].specifier@ == s && c[0].dir@ == dir {
        Some(opt_bytes(c[0].found))
    } else {
        cache_lookup(c.drop_first(), dir, s)
    }
}

/// Every cached answer agrees with the underlying lookup against `fs`.
pub open spec fn coherent(r: Resolver, fs: FileStore) -> bool {
    forall|k: int|
        0 <= k < r.cache@.len() ==> opt_bytes(#[trigger] r.cache@[k].found) == resolve_spec(
            fs,
            r.cache@[k].dir@,
            r.cache@[k].specifier@,
        )
}

proof fn lemma_cache_push(c: Seq<CacheEntry>, e: CacheEntry, dir: Seq<u8>, s: Seq<u8>)
    ensures
        cache_lookup(c.push(e), dir, s) == if cache_lookup(c, dir, s).is_some() {
            cache_lookup(c, dir, s)
        } else if e.specifier@ == s && e.dir@ == dir {
            Some(opt_bytes(e.found))
        } else {
            None
        },
    decreases c.len(),
{
    if c.len() == 0 {
        assert(c.push(e)[0] == e);
        assert(c.push(e).drop_first() =~= Seq::<CacheEntry>::empty());
        if e.specifier@ == s && e.dir@ == dir {
            assert(cache_lookup(c.push(e), dir, s) == Some(opt_bytes(e.found)));
        } else {
            assert(cache_lookup(c.push(e), dir, s) == cache_lookup(
                c.push(e).drop_first(),
                dir,
                s,
            ));
        }
    } else {
        assert(c.push(e)[0] == c[0]);
        assert(c.push(e).drop_first() =~= c.drop_first().push(e));
        lemma_cache_push(c.drop_first(), e, dir, s);
        if c[0].specifier@ == s && c[0].dir@ == dir {
            assert(cache_lookup(c.push(e), dir, s) == Some(opt_bytes(c[0].found)));
            assert(cache_lookup(c, dir, s) == Some(opt_bytes(c[0].found)));
        } else {
            assert(cache_lookup(c.push(e), dir, s) == cache_lookup(
                c.drop_first().push(e),
                dir,
                s,
            ));
            assert(cache_lookup(c, dir, s) == cache_lookup(c.drop_first(), dir, s));
        }
    }
}

impl Resolver {
    pub fn with_cwd(cwd: Vec<u8>) -> (r: Resolver)
        ensures
            r.cwd == cwd,
            r.cache@.len() == 0,
    {
        Resolver { cwd, cache: Vec::new() }
    }

    /// Drop all cached resolutions: a new build begins a new cache lifetime.
    pub fn reset_cache(&mut self)
        ensures
            final(self).cwd == old(self).cwd,
            final(self).cache@.len() == 0,
    {
        self.cache = Vec::new();
    }

    /// Resolve a specifier against an importing directory. The answer equals
    /// the underlying lookup; a pair already cached leaves the resolver
    /// untouched (the lookup is not repeated).
    pub fn resolve(&mut self, fs: &FileStore, specifier: &Vec<u8>, dir: &Vec<u8>) -> (r: Option<
        Vec<u8>,
    >)
        requires
            coherent(*old(self), *fs),
        ensures
            final(self).cwd == old(self).cwd,
            coherent(*final(self), *fs),
            opt_bytes(r) == resolve_spec(*fs, dir@, specifier@),
            cache_lookup(old(self).cache@, dir@, specifier@).is_some() ==> *final(self) == *old(
                self,
            ),
            cache_lookup(final(self).cache@, dir@, specifier@).is_some(),
            cache_lookup(old(self).cache@, dir@, specifier@).is_none() ==> {
                &&& final(self).cache@.len() == old(self).cache@.len() + 1
                &&& final(self).cache@.drop_last() == old(self).cache@
            },
    {
        proof {
            assert(self.cache@.skip(0) =~= self.cache@);
        }
        let mut i: usize = 0;
        while i < self.cache.len()
            invariant
                i <= self.cache.len(),
                cache_lookup(self.cache@, dir@, specifier@) == cache_lookup(
                    self.cache@.skip(i as int),
                    dir@,
                    specifier@,
                ),
            decreases self.cache.len() - i,
        {
            if bytes_eq(&self.cache[i].specifier, specifier) && bytes_eq(&self.cache[i].dir, dir) {
                let r = match &self.cache[i].found {
                    Some(v) => Some(copy_bytes(v)),
                    None => None,
                };
                return r;
            }
            proof {
                assert(self.cache@.skip(i as int).drop_first() =~= self.cache@.skip(i as int + 1));
            }
            i = i + 1;
        }
        let cand = join_path(dir, specifier);
        let found = fs.exists_file(&cand);
        let stored: Option<Vec<u8>> = if found {
            Some(copy_bytes(&cand))
        } else {
            None
        };
        let entry = CacheEntry {
            specifier: copy_bytes(specifier),
            dir: copy_bytes(dir),
            found: stored,
        };
        proof {
            lemma_cache_push(self.cache@, entry, dir@, specifier@);
        }
        self.cache.push(entry);
        proof {
            assert(self.cache@.drop_last() =~= old(self).cache@);
        }
        if found {
            Some(cand)
        } else {
            None
        }
    }
}

} // verus!
