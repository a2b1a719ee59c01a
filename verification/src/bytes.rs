//! Byte-string utilities: equality, copying, path splitting and joining, and
//! first-match lookup in association lists keyed by byte strings.
use vstd::prelude::*;

verus! {

/// Path separator.
pub const SLASH: u8 = 47;

/// View of an optional byte vector.
pub open spec fn opt_bytes(o: Option<Vec<u8>>) -> Option<Seq<u8>> {
    match o {
        Some(v) => Some(v@),
        None => None,
    }
}

/// Views of a sequence of byte vectors.
pub open spec fn views(s: Seq<Vec<u8>>) -> Seq<Seq<u8>> {
    s.map_values(|v: Vec<u8>| v@)
}

/// Some element of `s` has view `x`.
pub open spec fn has_bytes(s: Seq<Vec<u8>>, x: Seq<u8>) -> bool {
    exists|i: int| 0 <= i < s.len() && s[i]@ == x
}

/// An element occurs among the views exactly when `has_bytes` holds.
pub proof fn lemma_has_bytes_views(s: Seq<Vec<u8>>, x: Seq<u8>)
    ensures
        has_bytes(s, x) <==> views(s).contains(x),
{
    if has_bytes(s, x) {
        let k = choose|k: int| 0 <= k < s.len() && s[k]@ == x;
        assert(views(s)[k] == x);
    }
    if views(s).contains(x) {
        let k = choose|k: int| 0 <= k < views(s).len() && views(s)[k] == x;
        assert(s[k]@ == x);
    }
}

/// First-match lookup in an association list of byte strings.
pub open spec fn assoc_lookup(t: Seq<(Vec<u8>, Vec<u8>)>, key: Seq<u8>) -> Option<Seq<u8>>
    decreases t.len(),
{
    if t.len() == 0 {
        None
    } else if t[0].0@ == key {
        Some(t[0].1@)
    } else {
        assoc_lookup(t.drop_first(), key)
    }
}

pub fn bytes_eq(a: &Vec<u8>, b: &Vec<u8>) -> (r: bool)
    ensures
        r == (a@ == b@),
{
    if a.len() != b.len() {
        return false;
    }
    let mut i: usize = 0;
    while i < a.len()
        invariant
            i <= a.len(),
            a@.len() == b@.len(),
            forall|j: int| 0 <= j < i ==> a@[j] == b@[j],
        decreases a.len() - i,
    {
        if a[i] != b[i] {
            return false;
        }
        i = i + 1;
    }
    proof {
        assert(a@ =~= b@);
    }
    true
}

pub fn copy_bytes(a: &Vec<u8>) -> (r: Vec<u8>)
    ensures
        r@ == a@,
{
    let mut r: Vec<u8> = Vec::new();
    let mut i: usize = 0;
    while i < a.len()
        invariant
            i <= a.len(),
            r@ == a@.take(i as int),
        decreases a.len() - i,
    {
        r.push(a[i]);
        proof {
            assert(a@.take(i + 1 as int) =~= a@.take(i as int).push(a@[i as int]));
        }
        i = i + 1;
    }
    proof {
        assert(a@.take(a@.len() as int) =~= a@);
    }
    r
}

pub fn append_bytes(dst: &mut Vec<u8>, src: &Vec<u8>)
    ensures
        final(dst)@ == old(dst)@ + src@,
{
    let mut i: usize = 0;
    while i < src.len()
        invariant
            i <= src.len(),
            dst@ == old(dst)@ + src@.take(i as int),
        decreases src.len() - i,
    {
        dst.push(src[i]);
        proof {
            assert(old(dst)@ + src@.take(i + 1 as int) =~= (old(dst)@ + src@.take(i as int)).push(
                src@[i as int],
            ));
        }
        i = i + 1;
    }
    proof {
        assert(src@.take(src@.len() as int) =~= src@);
    }
}

/// Copy of `a[..n]`.
pub fn take_bytes(a: &Vec<u8>, n: usize) -> (r: Vec<u8>)
    requires
        n <= a.len(),
    ensures
        r@ == a@.take(n as int),
{
    let mut r: Vec<u8> = Vec::new();
    let mut i: usize = 0;
    while i < n
        invariant
            i <= n <= a.len(),
            r@ == a@.take(i as int),
        decreases n - i,
    {
        r.push(a[i]);
        proof {
            assert(a@.take(i + 1 as int) =~= a@.take(i as int).push(a@[i as int]));
        }
        i = i + 1;
    }
    r
}

/// Copy of `a[n..]`.
pub fn skip_bytes(a: &Vec<u8>, n: usize) -> (r: Vec<u8>)
    requires
        n <= a.len(),
    ensures
        r@ == a@.skip(n as int),
{
    let mut r: Vec<u8> = Vec::new();
    let mut i: usize = n;
    while i < a.len()
        invariant
            n <= i <= a.len(),
            r@ == a@.subrange(n as int, i as int),
        decreases a.len() - i,
    {
        r.push(a[i]);
        proof {
            assert(a@.subrange(n as int, i + 1 as int) =~= a@.subrange(n as int, i as int).push(
                a@[i as int],
            ));
        }
        i = i + 1;
    }
    r
}

/// Copy of `a[lo..hi]`.
pub fn range_bytes(a: &Vec<u8>, lo: usize, hi: usize) -> (r: Vec<u8>)
    requires
        lo <= hi <= a.len(),
    ensures
        r@ == a@.subrange(lo as int, hi as int),
{
    let mut r: Vec<u8> = Vec::new();
    let mut i: usize = lo;
    while i < hi
        invariant
            lo <= i <= hi <= a.len(),
            r@ == a@.subrange(lo as int, i as int),
        decreases hi - i,
    {
        r.push(a[i]);
        proof {
            assert(a@.subrange(lo as int, i + 1 as int) =~= a@.subrange(lo as int, i as int).push(
                a@[i as int],
            ));
        }
        i = i + 1;
    }
    r
}

pub fn starts_with(a: &Vec<u8>, prefix: &Vec<u8>) -> (r: bool)
    ensures
        r == prefix@.is_prefix_of(a@),
{
    if prefix.len() > a.len() {
        return false;
    }
    let mut i: usize = 0;
    while i < prefix.len()
        invariant
            i <= prefix.len() <= a.len(),
            forall|j: int| 0 <= j < i ==> a@[j] == prefix@[j],
        decreases prefix.len() - i,
    {
        if a[i] != prefix[i] {
            return false;
        }
        i = i + 1;
    }
    proof {
        assert(a@.take(prefix@.len() as int) =~= prefix@);
    }
    true
}

pub fn contains_bytes(v: &Vec<Vec<u8>>, x: &Vec<u8>) -> (r: bool)
    ensures
        r == has_bytes(v@, x@),
{
    let mut i: usize = 0;
    while i < v.len()
        invariant
            i <= v.len(),
            forall|j: int| 0 <= j < i ==> v@[j]@ != x@,
        decreases v.len() - i,
    {
        if bytes_eq(&v[i], x) {
            return true;
        }
        i = i + 1;
    }
    false
}

pub fn assoc_get(t: &Vec<(Vec<u8>, Vec<u8>)>, key: &Vec<u8>) -> (r: Option<Vec<u8>>)
    ensures
        opt_bytes(r) == assoc_lookup(t@, key@),
{
    proof {
        assert(t@.skip(0) =~= t@);
    }
    let mut i: usize = 0;
    while i < t.len()
        invariant
            i <= t.len(),
            assoc_lookup(t@, key@) == assoc_lookup(t@.skip(i as int), key@),
        decreases t.len() - i,
    {
        if bytes_eq(&t[i].0, key) {
            return Some(copy_bytes(&t[i].1));
        }
        proof {
            assert(t@.skip(i as int).drop_first() =~= t@.skip(i as int + 1));
        }
        i = i + 1;
    }
    None
}

/// Directory part of a path: everything before the last separator.
pub open spec fn dir_of(p: Seq<u8>) -> Seq<u8>
    decreases p.len(),
{
    if p.len() == 0 {
        p
    } else if p.last() == SLASH {
        p.drop_last()
    } else {
        dir_of(p.drop_last())
    }
}

/// File part of a path: everything after the last separator.
pub open spec fn base_of(p: Seq<u8>) -> Seq<u8>
    decreases p.len(),
{
    if p.len() == 0 {
        p
    } else if p.last() == SLASH {
        Seq::empty()
    } else {
        base_of(p.drop_last()).push(p.last())
    }
}

/// A path joined under a directory; an absolute path stands alone.
pub open spec fn joined(dir: Seq<u8>, name: Seq<u8>) -> Seq<u8> {
    if name.len() > 0 && name[0] == SLASH {
        name
    } else if dir.len() == 0 {
        name
    } else {
        dir.push(SLASH) + name
    }
}

proof fn lemma_split_at(p: Seq<u8>, k: int)
    requires
        0 <= k <= p.len(),
        forall|j: int| k <= j < p.len() ==> p[j] != SLASH,
        k == 0 || p[k - 1] == SLASH,
    ensures
        dir_of(p) == if k == 0 {
            Seq::<u8>::empty()
        } else {
            p.take(k - 1)
        },
        base_of(p) == p.skip(k),
    decreases p.len() - k,
{
    if k == p.len() {
        if k == 0 {
            assert(p =~= Seq::<u8>::empty());
            assert(p.skip(0) =~= p);
        } else {
            assert(p.last() == SLASH);
            assert(p.drop_last() =~= p.take(k - 1));
            assert(p.skip(k) =~= Seq::<u8>::empty());
        }
    } else {
        assert(p.last() != SLASH);
        lemma_split_at(p.drop_last(), k);
        if k == 0 {
            assert(p.drop_last().skip(0) =~= p.drop_last());
            assert(base_of(p) =~= p.skip(0));
        } else {
            assert(p.drop_last().take(k - 1) =~= p.take(k - 1));
            assert(p.drop_last().skip(k).push(p.last()) =~= p.skip(k));
        }
    }
}

/// Index just after the last separator, or 0 when there is none.
fn split_ix(p: &Vec<u8>) -> (k: usize)
    ensures
        k <= p.len(),
        forall|j: int| k <= j < p@.len() ==> p@[j] != SLASH,
        k == 0 || p@[k - 1] == SLASH,
{
    let mut k: usize = p.len();
    while k > 0
        invariant
            k <= p.len(),
            forall|j: int| k <= j < p@.len() ==> p@[j] != SLASH,
        decreases k,
    {
        if p[k - 1] == SLASH {
            return k;
        }
        k = k - 1;
    }
    0
}

pub fn dir_name(p: &Vec<u8>) -> (r: Vec<u8>)
    ensures
        r@ == dir_of(p@),
{
    let k = split_ix(p);
    proof {
        lemma_split_at(p@, k as int);
    }
    if k == 0 {
        Vec::new()
    } else {
        take_bytes(p, k - 1)
    }
}

pub fn base_name(p: &Vec<u8>) -> (r: Vec<u8>)
    ensures
        r@ == base_of(p@),
{
    let k = split_ix(p);
    proof {
        lemma_split_at(p@, k as int);
    }
    skip_bytes(p, k)
}

pub fn join_path(dir: &Vec<u8>, name: &Vec<u8>) -> (r: Vec<u8>)
    ensures
        r@ == joined(dir@, name@),
{
    if (name.len() > 0 && name[0] == SLASH) || dir.len() == 0 {
        copy_bytes(name)
    } else {
        let mut r = copy_bytes(dir);
        r.push(SLASH);
        append_bytes(&mut r, name);
        r
    }
}

} // verus!
