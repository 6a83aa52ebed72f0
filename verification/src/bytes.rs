//! Small verified helpers on byte vectors.  Frames on the wire are UTF-8
//! text, but every rule of the protocol is a rule about bytes, so the whole
//! codec works on `Vec<u8>`.

use vstd::prelude::*;

verus! {

/// Byte-for-byte equality of two byte slices.
pub fn bytes_eq(a: &[u8], b: &[u8]) -> (r: bool)
    ensures
        r <==> a@ == b@,
{
    if a.len() != b.len() {
        assert(a@.len() != b@.len());
        return false;
    }
    let mut i: usize = 0;
    while i < a.len()
        invariant
            0 <= i <= a@.len(),
            a@.len() == b@.len(),
            forall|j: int| 0 <= j < i ==> a@[j] == b@[j],
        decreases a@.len() - i,
    {
        if a[i] != b[i] {
            return false;
        }
        i += 1;
    }
    assert(a@ =~= b@);
    true
}

/// Appends all of `src` onto the end of `dst`.
pub fn push_all(dst: &mut Vec<u8>, src: &[u8])
    ensures
        final(dst)@ == old(dst)@ + src@,
{
    let mut i: usize = 0;
    while i < src.len()
        invariant
            0 <= i <= src@.len(),
            dst@ == old(dst)@ + src@.take(i as int),
        decreases src@.len() - i,
    {
        dst.push(src[i]);
        assert(src@.take(i + 1 as int) =~= src@.take(i as int).push(src@[i as int]));
        i += 1;
    }
    assert(src@.take(src@.len() as int) =~= src@);
}

/// The views of a sequence of byte vectors, as a sequence of byte sequences.
pub open spec fn views(vs: Seq<Vec<u8>>) -> Seq<Seq<u8>> {
    vs.map_values(|v: Vec<u8>| v@)
}

/// ASCII whitespace, as trimmed from every frame field.
pub open spec fn is_space(b: u8) -> bool {
    b == 32 || b == 9 || b == 10 || b == 13
}

/// `s` without its leading whitespace.
pub open spec fn trim_left(s: Seq<u8>) -> Seq<u8>
    decreases s.len(),
{
    if s.len() > 0 && is_space(s[0]) {
        trim_left(s.drop_first())
    } else {
        s
    }
}

/// `s` without its trailing whitespace.
pub open spec fn trim_right(s: Seq<u8>) -> Seq<u8>
    decreases s.len(),
{
    if s.len() > 0 && is_space(s.last()) {
        trim_right(s.drop_last())
    } else {
        s
    }
}

/// `s` without leading or trailing whitespace.
pub open spec fn trim_spec(s: Seq<u8>) -> Seq<u8> {
    trim_right(trim_left(s))
}

/// Index of the first occurrence of `d` in `s`, or -1 when `d` is absent.
pub open spec fn find_byte(s: Seq<u8>, d: u8) -> int
    decreases s.len(),
{
    if s.len() == 0 {
        -1
    } else if s[0] == d {
        0
    } else {
        let r = find_byte(s.drop_first(), d);
        if r < 0 {
            -1
        } else {
            r + 1
        }
    }
}

/// The fields of `s` delimited by `d`: splitting never yields an empty list,
/// and a string without `d` is one field.
pub open spec fn split_bytes(s: Seq<u8>, d: u8) -> Seq<Seq<u8>>
    decreases s.len(),
{
    let i = find_byte(s, d);
    if i < 0 || i >= s.len() {
        seq![s]
    } else {
        seq![s.take(i)] + split_bytes(s.skip(i + 1), d)
    }
}

/// What `find_byte` returns: the first index holding `d`, or -1 when none does.
pub proof fn lemma_find_byte(s: Seq<u8>, d: u8)
    ensures
        find_byte(s, d) < 0 ==> forall|k: int| 0 <= k < s.len() ==> s[k] != d,
        find_byte(s, d) >= 0 ==> {
            &&& find_byte(s, d) < s.len()
            &&& s[find_byte(s, d)] == d
            &&& forall|k: int| 0 <= k < find_byte(s, d) ==> s[k] != d
        },
    decreases s.len(),
{
    if s.len() == 0 {
    } else if s[0] == d {
    } else {
        lemma_find_byte(s.drop_first(), d);
        let r = find_byte(s.drop_first(), d);
        if r < 0 {
            assert forall|k: int| 0 <= k < s.len() implies s[k] != d by {
                if k >= 1 {
                    assert(s[k] == s.drop_first()[k - 1]);
                    assert(s.drop_first()[k - 1] != d);
                }
            }
        } else {
            assert(s[r + 1] == s.drop_first()[r]);
            assert forall|k: int| 0 <= k < r + 1 implies s[k] != d by {
                if k >= 1 {
                    assert(s[k] == s.drop_first()[k - 1]);
                    assert(s.drop_first()[k - 1] != d);
                }
            }
        }
    }
}

/// When the bytes before `k` avoid `d` and `s[k] == d`, the first occurrence is `k`.
pub proof fn lemma_find_byte_at(s: Seq<u8>, d: u8, k: int)
    requires
        0 <= k < s.len(),
        s[k] == d,
        forall|j: int| 0 <= j < k ==> s[j] != d,
    ensures
        find_byte(s, d) == k,
{
    lemma_find_byte(s, d);
    let r = find_byte(s, d);
    if r < 0 {
    } else if r < k {
    } else if r > k {
        assert(s[k] != d);
    }
}

/// When no byte of `s` is `d`, the split is the single field `s`.
pub proof fn lemma_split_whole(s: Seq<u8>, d: u8)
    requires
        forall|j: int| 0 <= j < s.len() ==> s[j] != d,
    ensures
        split_bytes(s, d) == seq![s],
{
    lemma_find_byte(s, d);
    if find_byte(s, d) >= 0 {
        assert(s[find_byte(s, d)] != d);
    }
}

/// Splitting `f + [d] + rest` peels off the delimiter-free field `f`.
pub proof fn lemma_split_prepend(f: Seq<u8>, rest: Seq<u8>, d: u8)
    requires
        forall|j: int| 0 <= j < f.len() ==> f[j] != d,
    ensures
        split_bytes(f + seq![d] + rest, d) == seq![f] + split_bytes(rest, d),
{
    let s = f + seq![d] + rest;
    assert(s[f.len() as int] == d);
    assert(forall|j: int| 0 <= j < f.len() ==> s[j] == f[j] && s[j] != d);
    lemma_find_byte_at(s, d, f.len() as int);
    assert(s.take(f.len() as int) =~= f);
    assert(s.skip(f.len() + 1 as int) =~= rest);
}

/// Whether one of `vs` equals `x`.
pub fn contains_bytes(vs: &Vec<Vec<u8>>, x: &[u8]) -> (r: bool)
    ensures
        r <==> views(vs@).contains(x@),
{
    let mut i: usize = 0;
    let mut found = false;
    while i < vs.len()
        invariant
            0 <= i <= vs@.len(),
            found <==> exists|j: int| 0 <= j < i && views(vs@)[j] == x@,
        decreases vs@.len() - i,
    {
        if bytes_eq(vs[i].as_slice(), x) {
            found = true;
            assert(views(vs@)[i as int] == x@);
        }
        i += 1;
    }
    found
}

/// Appends `x` unless it is already present: the vector stays a set.
pub fn insert_unique(vs: &mut Vec<Vec<u8>>, x: Vec<u8>)
    ensures
        views(final(vs)@) == if views(old(vs)@).contains(x@) {
            views(old(vs)@)
        } else {
            views(old(vs)@).push(x@)
        },
        views(old(vs)@).no_duplicates() ==> views(final(vs)@).no_duplicates(),
{
    let present = contains_bytes(vs, x.as_slice());
    let ghost vs0 = views(vs@);
    if !present {
        vs.push(x);
        proof {
            assert(views(vs@) =~= vs0.push(x@));
            if vs0.no_duplicates() {
                assert(views(vs@).no_duplicates());
            }
        }
    }
}

/// Removes the entry equal to `x`, when there is one, from a vector whose
/// entries are pairwise distinct.
pub fn remove_first(vs: &mut Vec<Vec<u8>>, x: &[u8]) -> (found: bool)
    requires
        views(old(vs)@).no_duplicates(),
    ensures
        found <==> views(old(vs)@).contains(x@),
        views(final(vs)@).no_duplicates(),
        forall|a: Seq<u8>|
            #[trigger] views(final(vs)@).contains(a) <==> (views(old(vs)@).contains(a) && a != x@),
        views(final(vs)@).len() == views(old(vs)@).len() - (if found {
            1int
        } else {
            0int
        }),
{
    let mut i: usize = 0;
    while i < vs.len()
        invariant
            0 <= i <= vs@.len(),
            views(vs@) == views(old(vs)@),
            views(old(vs)@).no_duplicates(),
            forall|j: int| 0 <= j < i ==> views(vs@)[j] != x@,
        decreases vs@.len() - i,
    {
        if bytes_eq(vs[i].as_slice(), x) {
            let ghost vs0 = views(vs@);
            vs.remove(i);
            proof {
                assert(vs0[i as int] == x@);
                assert forall|t: int| 0 <= t < vs@.len() implies #[trigger] views(vs@)[t] == vs0[if t
                    < i as int {
                    t
                } else {
                    t + 1
                }] by {}
                assert forall|t: int, u: int|
                    0 <= t < views(vs@).len() && 0 <= u < views(vs@).len() && t != u implies views(
                    vs@,
                )[t] != views(vs@)[u] by {
                    let mt: int = if t < i as int {
                        t
                    } else {
                        t + 1
                    };
                    let mu: int = if u < i as int {
                        u
                    } else {
                        u + 1
                    };
                    assert(views(vs@)[t] == vs0[mt]);
                    assert(views(vs@)[u] == vs0[mu]);
                    assert(vs0[mt] != vs0[mu]);
                }
                assert(views(vs@).no_duplicates());
                assert forall|a: Seq<u8>| #[trigger] views(vs@).contains(a) implies (
                vs0.contains(a) && a != x@) by {
                    let t = choose|t: int| 0 <= t < views(vs@).len() && views(vs@)[t] == a;
                    if t < i as int {
                        assert(views(vs@)[t] == vs0[t]);
                        assert(vs0[t] == a);
                    } else {
                        assert(views(vs@)[t] == vs0[t + 1]);
                        assert(vs0[t + 1] == a);
                        assert(t + 1 != i as int);
                    }
                }
                assert forall|a: Seq<u8>| vs0.contains(a) && a != x@ implies views(
                    vs@,
                ).contains(a) by {
                    let t = choose|t: int| 0 <= t < vs0.len() && vs0[t] == a;
                    if t < i as int {
                        assert(views(vs@)[t] == a);
                    } else {
                        assert(vs0[i as int] == x@);
                        assert(t != i as int);
                        assert(views(vs@)[t - 1] == a);
                    }
                }
            }
            return true;
        }
        i += 1;
    }
    assert forall|a: Seq<u8>| #[trigger] views(vs@).contains(a) implies a != x@ by {
        let t = choose|t: int| 0 <= t < views(vs@).len() && views(vs@)[t] == a;
    }
    false
}

/// A deep copy of a vector of byte vectors.
pub fn copy_all(vs: &Vec<Vec<u8>>) -> (r: Vec<Vec<u8>>)
    ensures
        views(r@) == views(vs@),
{
    let mut r: Vec<Vec<u8>> = Vec::new();
    let mut i: usize = 0;
    while i < vs.len()
        invariant
            0 <= i <= vs@.len(),
            views(r@) == views(vs@).take(i as int),
        decreases vs@.len() - i,
    {
        let mut c: Vec<u8> = Vec::new();
        push_all(&mut c, vs[i].as_slice());
        let ghost r0 = views(r@);
        r.push(c);
        proof {
            assert(views(r@) =~= r0.push(views(vs@)[i as int]));
            assert(views(vs@).take(i + 1 as int) =~= views(vs@).take(i as int).push(
                views(vs@)[i as int],
            ));
        }
        i += 1;
    }
    proof {
        assert(views(vs@).take(vs@.len() as int) =~= views(vs@));
    }
    r
}

/// Whether `v` begins with `p`.
pub fn starts_with(v: &[u8], p: &[u8]) -> (r: bool)
    ensures
        r <==> (v@.len() >= p@.len() && v@.take(p@.len() as int) == p@),
{
    if v.len() < p.len() {
        return false;
    }
    let mut i: usize = 0;
    while i < p.len()
        invariant
            0 <= i <= p@.len() <= v@.len(),
            forall|j: int| 0 <= j < i ==> v@[j] == p@[j],
        decreases p@.len() - i,
    {
        if v[i] != p[i] {
            assert(v@.take(p@.len() as int)[i as int] != p@[i as int]);
            return false;
        }
        i += 1;
    }
    assert(v@.take(p@.len() as int) =~= p@);
    true
}

/// The bytes of `v` from index `n` on.
pub fn skip_bytes(v: &[u8], n: usize) -> (r: Vec<u8>)
    requires
        n <= v@.len(),
    ensures
        r@ == v@.skip(n as int),
{
    let mut r: Vec<u8> = Vec::new();
    let mut i: usize = n;
    while i < v.len()
        invariant
            n <= i <= v@.len(),
            r@ == v@.subrange(n as int, i as int),
        decreases v@.len() - i,
    {
        r.push(v[i]);
        assert(v@.subrange(n as int, i + 1 as int) =~= v@.subrange(n as int, i as int).push(
            v@[i as int],
        ));
        i += 1;
    }
    assert(v@.subrange(n as int, v@.len() as int) =~= v@.skip(n as int));
    r
}

/// Whether `b` is ASCII whitespace.
pub fn is_space_byte(b: u8) -> (r: bool)
    ensures
        r == is_space(b),
{
    b == 32 || b == 9 || b == 10 || b == 13
}

/// A string with no whitespace at either end trims to itself.
pub proof fn lemma_trim_id(s: Seq<u8>)
    requires
        s.len() == 0 || (!is_space(s[0]) && !is_space(s.last())),
    ensures
        trim_spec(s) == s,
{
}

/// Dropping `i` leading whitespace bytes computes `trim_left`.
proof fn lemma_trim_left_skip(s: Seq<u8>, i: int)
    requires
        0 <= i <= s.len(),
        forall|j: int| 0 <= j < i ==> is_space(s[j]),
        i == s.len() || !is_space(s[i]),
    ensures
        trim_left(s) == s.skip(i),
    decreases i,
{
    if i == 0 {
        assert(s.skip(0) =~= s);
    } else {
        lemma_trim_left_skip(s.drop_first(), i - 1);
        assert(s.drop_first().skip(i - 1) =~= s.skip(i));
    }
}

/// Dropping the whitespace bytes from index `h` on computes `trim_right`.
proof fn lemma_trim_right_take(s: Seq<u8>, h: int)
    requires
        0 <= h <= s.len(),
        forall|j: int| h <= j < s.len() ==> is_space(s[j]),
        h == 0 || !is_space(s[h - 1]),
    ensures
        trim_right(s) == s.take(h),
    decreases s.len(),
{
    if h == s.len() {
        assert(s.take(h) =~= s);
    } else {
        assert(is_space(s.last()));
        lemma_trim_right_take(s.drop_last(), h);
        assert(s.drop_last().take(h) =~= s.take(h));
    }
}

/// `v` without leading and trailing ASCII whitespace.
pub fn trim_bytes(v: &[u8]) -> (r: Vec<u8>)
    ensures
        r@ == trim_spec(v@),
{
    let mut lo: usize = 0;
    while lo < v.len() && is_space_byte(v[lo])
        invariant
            0 <= lo <= v@.len(),
            forall|j: int| 0 <= j < lo ==> is_space(v@[j]),
        decreases v@.len() - lo,
    {
        lo += 1;
    }
    let mut hi: usize = v.len();
    while hi > lo && is_space_byte(v[hi - 1])
        invariant
            lo <= hi <= v@.len(),
            forall|j: int| 0 <= j < lo ==> is_space(v@[j]),
            forall|j: int| hi <= j < v@.len() ==> is_space(v@[j]),
        decreases hi,
    {
        hi -= 1;
    }
    proof {
        lemma_trim_left_skip(v@, lo as int);
        let s = v@.skip(lo as int);
        assert forall|j: int| hi - lo <= j < s.len() implies is_space(s[j]) by {
            assert(s[j] == v@[lo + j]);
        }
        if hi > lo {
            assert(s[hi - lo - 1 as int] == v@[hi - 1 as int]);
        }
        lemma_trim_right_take(s, hi - lo as int);
        assert(s.take(hi - lo as int) =~= v@.subrange(lo as int, hi as int));
    }
    let mut r: Vec<u8> = Vec::new();
    let mut j: usize = lo;
    while j < hi
        invariant
            lo <= j <= hi <= v@.len(),
            r@ == v@.subrange(lo as int, j as int),
        decreases hi - j,
    {
        r.push(v[j]);
        assert(v@.subrange(lo as int, j + 1 as int) =~= v@.subrange(lo as int, j as int).push(
            v@[j as int],
        ));
        j += 1;
    }
    r
}

/// The fields of `v` delimited by `d`, in order.
pub fn split_at_byte(v: &[u8], d: u8) -> (r: Vec<Vec<u8>>)
    ensures
        views(r@) == split_bytes(v@, d),
        r@.len() >= 1,
{
    let mut r: Vec<Vec<u8>> = Vec::new();
    let mut cur: Vec<u8> = Vec::new();
    let mut start: usize = 0;
    let mut i: usize = 0;
    proof {
        assert(v@.skip(0) =~= v@);
        assert(views(r@) + split_bytes(v@, d) =~= split_bytes(v@, d));
        assert(cur@ =~= v@.subrange(0, 0));
    }
    while i < v.len()
        invariant
            0 <= start <= i <= v@.len(),
            cur@ == v@.subrange(start as int, i as int),
            forall|j: int| start <= j < i ==> v@[j] != d,
            split_bytes(v@, d) == views(r@) + split_bytes(v@.skip(start as int), d),
        decreases v@.len() - i,
    {
        if v[i] == d {
            proof {
                let s = v@.skip(start as int);
                assert(s[i - start as int] == v@[i as int]);
                assert forall|j: int| 0 <= j < i - start implies s[j] != d by {
                    assert(s[j] == v@[start + j]);
                }
                lemma_find_byte_at(s, d, i - start as int);
                assert(s.take(i - start as int) =~= v@.subrange(start as int, i as int));
                assert(s.skip(i - start + 1 as int) =~= v@.skip(i + 1 as int));
            }
            let ghost r0 = r@;
            let ghost cur0 = cur@;
            r.push(cur);
            proof {
                assert(views(r@) =~= views(r0).push(cur0));
            }
            cur = Vec::new();
            start = i + 1;
            proof {
                assert(cur@ =~= v@.subrange(start as int, start as int));
            }
        } else {
            cur.push(v[i]);
            assert(v@.subrange(start as int, i + 1 as int) =~= v@.subrange(
                start as int,
                i as int,
            ).push(v@[i as int]));
        }
        i += 1;
    }
    proof {
        let s = v@.skip(start as int);
        assert forall|j: int| 0 <= j < s.len() implies s[j] != d by {
            assert(s[j] == v@[start + j]);
        }
        lemma_split_whole(s, d);
        assert(s =~= v@.subrange(start as int, v@.len() as int));
    }
    let ghost r0 = r@;
    let ghost cur0 = cur@;
    r.push(cur);
    proof {
        assert(views(r@) =~= views(r0).push(cur0));
        assert(views(r0).push(cur0) =~= views(r0) + seq![cur0]);
    }
    r
}

} // verus!
