//! The keys of an ordered map, in order.
use std::collections::BTreeMap;
use vstd::prelude::*;

verus! {

broadcast use vstd::std_specs::btree::group_btree_axioms;

/// The numbers of `s` rise strictly.
pub open spec fn increasing(s: Seq<u64>) -> bool {
    forall|i: int, j: int| 0 <= i < j < s.len() ==> s[i] < s[j]
}

/// `s` lists exactly the keys of `m`, from the lowest to the highest.
pub open spec fn lists_keys<V>(s: Seq<u64>, m: Map<u64, V>) -> bool {
    &&& increasing(s)
    &&& forall|k: u64| #[trigger] s.contains(k) <==> m.contains_key(k)
}

/// `fd` is the lowest number at or above `from` that is not a key of `m`.
pub open spec fn lowest_free<V>(m: Map<u64, V>, from: u64, fd: u64) -> bool {
    &&& from <= fd
    &&& !m.contains_key(fd)
    &&& forall|k: u64| from <= k < fd ==> #[trigger] m.contains_key(k)
}

proof fn lemma_increasing(s: Seq<u64>)
    requires
        vstd::std_specs::btree::increasing_seq(s),
    ensures
        increasing(s),
{
    broadcast use vstd::laws_cmp::group_laws_cmp;

    assert forall|i: int, j: int| 0 <= i < j < s.len() implies s[i] < s[j] by {
        assert(vstd::std_specs::cmp::OrdSpec::cmp_spec(&s[i], &s[j]) is Less);
    }
}

/// The keys of `m` in rising order.
pub fn sorted_keys<V>(m: &BTreeMap<u64, V>) -> (r: Vec<u64>)
    ensures
        lists_keys(r@, m@),
        r@.len() == m@.len(),
{
    let mut out: Vec<u64> = Vec::new();
    let iter = m.iter();
    let ghost pairs = vstd::std_specs::iter::IteratorSpec::remaining(&iter);
    let ghost keys = pairs.map_values(|kv: (&u64, &V)| *kv.0);
    for kv in it: iter
        invariant
            it.seq() == pairs,
            keys == pairs.map_values(|kv: (&u64, &V)| *kv.0),
            out@ == keys.take(it.index() as int),
    {
        out.push(*kv.0);
        assert(out@ =~= keys.take(it.index() + 1));
    }
    proof {
        assert(out@ =~= keys);
        lemma_increasing(keys);
        assert forall|k: u64| #[trigger] keys.contains(k) <==> m@.contains_key(k) by {
            if keys.contains(k) {
                let i = choose|i: int| 0 <= i < keys.len() && keys[i] == k;
                assert(m@.contains_key(*pairs[i].0));
            }
            if m@.contains_key(k) {
                assert(pairs.contains((&k, &m@[k])));
                let i = choose|i: int| 0 <= i < pairs.len() && pairs[i] == (&k, &m@[k]);
                assert(keys[i] == k);
            }
        }
    }
    out
}

/// One more item of a strictly rising sequence adds one to the set of those that
/// pass, exactly if it passes.
pub proof fn lemma_passing_step(s: Seq<u64>, i: int, p: spec_fn(u64) -> bool)
    requires
        increasing(s),
        0 <= i < s.len(),
    ensures
        s.take(i).to_set().filter(p).finite(),
        s.take(i + 1).to_set().filter(p).len() == s.take(i).to_set().filter(p).len() + if p(s[i]) {
            1nat
        } else {
            0nat
        },
{
    let before = s.take(i);
    let after = s.take(i + 1);
    vstd::seq_lib::seq_to_set_is_finite(before);
    assert(!before.to_set().contains(s[i]));
    assert(after =~= before.push(s[i]));
    assert forall|x: u64| after.to_set().contains(x) <==> before.to_set().contains(x) || x
        == s[i] by {
        if before.contains(x) {
            let k = choose|k: int| 0 <= k < before.len() && before[k] == x;
            assert(after[k] == x);
        }
        assert(after[i] == s[i]);
    }
    if p(s[i]) {
        assert(after.to_set().filter(p) =~= before.to_set().filter(p).insert(s[i]));
    } else {
        assert(after.to_set().filter(p) =~= before.to_set().filter(p));
    }
}

/// The keys of a map that pass, by way of the sequence that lists them.
pub proof fn lemma_passing_keys<V>(s: Seq<u64>, m: Map<u64, V>, p: spec_fn(u64) -> bool)
    requires
        lists_keys(s, m),
    ensures
        s.take(s.len() as int).to_set().filter(p) == m.dom().filter(p),
        s.take(0).to_set().filter(p).len() == 0,
{
    assert(s.take(s.len() as int) =~= s);
    assert forall|x: u64| s.to_set().contains(x) <==> m.dom().contains(x) by {
        assert(s.contains(x) <==> m.contains_key(x));
    }
    assert(s.to_set().filter(p) =~= m.dom().filter(p));
    assert(s.take(0).to_set().filter(p) =~= Set::empty());
}

/// Two listings of the keys of a map are the same.
pub proof fn lemma_listing_unique<V>(s: Seq<u64>, t: Seq<u64>, m: Map<u64, V>)
    requires
        lists_keys(s, m),
        lists_keys(t, m),
    ensures
        s == t,
    decreases s.len(),
{
    if s.len() == 0 {
        if t.len() > 0 {
            assert(t.contains(t[0]));
            assert(s.contains(t[0]));
        }
        assert(s =~= t);
    } else {
        let x = s.last();
        assert(s.contains(s[s.len() - 1]));
        assert(t.contains(x));
        let j = choose|j: int| 0 <= j < t.len() && t[j] == x;
        let y = t.last();
        assert(t.contains(t[t.len() - 1]));
        assert(s.contains(y));
        let k = choose|k: int| 0 <= k < s.len() && s[k] == y;
        assert(x == y);
        let rest = m.remove(x);
        assert(lists_keys(s.drop_last(), rest)) by {
            lemma_listing_without_last(s, m);
        }
        assert(lists_keys(t.drop_last(), rest)) by {
            lemma_listing_without_last(t, m);
        }
        lemma_listing_unique(s.drop_last(), t.drop_last(), rest);
        assert(s =~= s.drop_last().push(x));
        assert(t =~= t.drop_last().push(x));
    }
}

proof fn lemma_listing_without_last<V>(s: Seq<u64>, m: Map<u64, V>)
    requires
        lists_keys(s, m),
        s.len() > 0,
    ensures
        lists_keys(s.drop_last(), m.remove(s.last())),
{
    let f = s.drop_last();
    let x = s.last();
    assert forall|k: u64| #[trigger] f.contains(k) <==> m.remove(x).contains_key(k) by {
        if f.contains(k) {
            let i = choose|i: int| 0 <= i < f.len() && f[i] == k;
            assert(s[i] == k);
            assert(s.contains(k));
        }
        if m.remove(x).contains_key(k) {
            assert(s.contains(k));
            let i = choose|i: int| 0 <= i < s.len() && s[i] == k;
            assert(f[i] == k);
        }
    }
}

/// Some number at or above `from` is not a key of `m`.
pub open spec fn has_free<V>(m: Map<u64, V>, from: u64) -> bool {
    exists|k: u64| from <= k && !#[trigger] m.contains_key(k)
}

/// The lowest number at or above `from` that is not a key of `m`.
pub fn first_free<V>(m: &BTreeMap<u64, V>, from: u64) -> (fd: u64)
    requires
        has_free(m@, from),
    ensures
        lowest_free(m@, from, fd),
{
    let mut fd: u64 = from;
    let ghost free = choose|k: u64| from <= k && !m@.contains_key(k);
    while m.contains_key(&fd)
        invariant
            from <= fd <= free,
            !m@.contains_key(free),
            forall|k: u64| from <= k < fd ==> #[trigger] m@.contains_key(k),
        decreases free - fd,
    {
        fd = fd + 1;
    }
    fd
}

/// The keys of a map in rising order.
pub open spec fn listing<V>(m: Map<u64, V>) -> Seq<u64> {
    choose|s: Seq<u64>| lists_keys(s, m)
}

/// What lists the keys is the listing.
pub proof fn lemma_listing<V>(s: Seq<u64>, m: Map<u64, V>)
    requires
        lists_keys(s, m),
    ensures
        listing(m) == s,
        lists_keys(listing(m), m),
{
    lemma_listing_unique(listing(m), s, m);
}

spec fn inserted(s: Seq<u64>, x: u64) -> Seq<u64>
    decreases s.len(),
{
    if s.len() == 0 || s.last() < x {
        s.push(x)
    } else {
        inserted(s.drop_last(), x).push(s.last())
    }
}

proof fn lemma_inserted(s: Seq<u64>, x: u64)
    requires
        increasing(s),
        !s.contains(x),
    ensures
        increasing(inserted(s, x)),
        forall|k: u64| #[trigger] inserted(s, x).contains(k) <==> s.contains(k) || k == x,
    decreases s.len(),
{
    let r = inserted(s, x);
    if s.len() == 0 || s.last() < x {
        assert forall|i: int, j: int| 0 <= i < j < r.len() implies r[i] < r[j] by {
            if j == s.len() {
                assert(i < s.len() - 1 ==> s[i] < s[s.len() - 1]);
            }
        }
        assert forall|k: u64| #[trigger] r.contains(k) <==> s.contains(k) || k == x by {
            if s.contains(k) {
                let i = choose|i: int| 0 <= i < s.len() && s[i] == k;
                assert(r[i] == k);
            }
            assert(r[s.len() as int] == x);
        }
    } else {
        let f = s.drop_last();
        let g = inserted(f, x);
        assert(s.contains(s[s.len() - 1]));
        assert forall|k: u64| #[trigger] s.contains(k) <==> f.contains(k) || k == s.last() by {
            if s.contains(k) {
                let i = choose|i: int| 0 <= i < s.len() && s[i] == k;
                if i < f.len() {
                    assert(f[i] == k);
                }
            }
            if f.contains(k) {
                let i = choose|i: int| 0 <= i < f.len() && f[i] == k;
                assert(s[i] == k);
            }
        }
        lemma_inserted(f, x);
        assert forall|k: u64| #[trigger] r.contains(k) <==> s.contains(k) || k == x by {
            if g.contains(k) {
                let i = choose|i: int| 0 <= i < g.len() && g[i] == k;
                assert(r[i] == k);
            }
            assert(r[g.len() as int] == s.last());
            assert(g.contains(k) <==> f.contains(k) || k == x);
        }
        assert forall|i: int, j: int| 0 <= i < j < r.len() implies r[i] < r[j] by {
            if j == g.len() {
                assert(g.contains(g[i]));
                if f.contains(g[i]) {
                    let n = choose|n: int| 0 <= n < f.len() && f[n] == g[i];
                    assert(s[n] < s[s.len() - 1]);
                }
            }
        }
    }
}

/// A finite map has a listing, of as many keys as the map has entries.
pub proof fn lemma_listing_exists<V>(m: Map<u64, V>)
    requires
        m.dom().finite(),
    ensures
        lists_keys(listing(m), m),
        listing(m).len() == m.dom().len(),
    decreases m.dom().len(),
{
    if m.dom().len() == 0 {
        let s = Seq::<u64>::empty();
        assert(m.dom() =~= Set::empty());
        assert forall|k: u64| #[trigger] s.contains(k) <==> m.contains_key(k) by {
            assert(m.dom().contains(k) <==> m.contains_key(k));
        }
        lemma_listing(s, m);
    } else {
        let x = m.dom().choose();
        let rest = m.remove(x);
        assert(rest.dom() =~= m.dom().remove(x));
        lemma_listing_exists(rest);
        let f = listing(rest);
        assert(!f.contains(x));
        lemma_inserted(f, x);
        let s = inserted(f, x);
        assert forall|k: u64| #[trigger] s.contains(k) <==> m.contains_key(k) by {
            assert(f.contains(k) <==> rest.contains_key(k));
        }
        lemma_listing(s, m);
        lemma_inserted_len(f, x);
    }
}

proof fn lemma_inserted_len(s: Seq<u64>, x: u64)
    ensures
        inserted(s, x).len() == s.len() + 1,
    decreases s.len(),
{
    if s.len() > 0 && s.last() >= x {
        lemma_inserted_len(s.drop_last(), x);
    }
}

/// A map with fewer entries than there are words has a free key.
proof fn lemma_some_key_free<V>(m: Map<u64, V>)
    requires
        m.dom().finite(),
        m.dom().len() <= u64::MAX,
    ensures
        has_free(m, 0),
{
    if !has_free(m, 0) {
        let all = vstd::set_lib::set_int_range(0, u64::MAX + 1);
        vstd::set_lib::lemma_int_range(0, u64::MAX + 1);
        let f = |k: u64| k as int;
        let image = m.dom().map(f);
        assert forall|x: int| all.contains(x) implies image.contains(x) by {
            let k = x as u64;
            assert(0 <= k && !(!m.contains_key(k)));
            assert(f(k) == x);
            assert(m.dom().contains(k));
        }
        m.dom().lemma_map_finite(f);
        vstd::set_lib::lemma_map_size_bound(m.dom(), image, f);
        vstd::set_lib::lemma_len_subset(all, image);
    }
}

/// The lowest number that is not a key of `m`.
pub fn lowest_key<V>(m: &BTreeMap<u64, V>) -> (k: u64)
    ensures
        lowest_free(m@, 0, k),
{
    let n = m.len();
    proof {
        lemma_some_key_free(m@);
    }
    first_free(m, 0)
}

} // verus!
