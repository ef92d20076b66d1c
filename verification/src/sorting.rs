//! Stable sorting of records by a text key, in ascending or descending order of
//! the key's characters (the order of `str`'s `Ord`, which compares UTF-8 bytes and
//! so code points).

use vstd::prelude::*;

verus! {

broadcast use vstd::seq_lib::group_seq_properties;

/// `a` comes strictly before `b` in lexicographic order of their characters.
pub open spec fn lex_lt(a: Seq<char>, b: Seq<char>) -> bool
    decreases a.len(),
{
    if a.len() == 0 {
        b.len() > 0
    } else if b.len() == 0 {
        false
    } else if a[0] < b[0] {
        true
    } else if a[0] > b[0] {
        false
    } else {
        lex_lt(a.drop_first(), b.drop_first())
    }
}

/// Whether `a` comes strictly before `b` in lexicographic order.
pub fn str_lt(a: &str, b: &str) -> (r: bool)
    ensures
        r == lex_lt(a@, b@),
{
    let na = a.unicode_len();
    let nb = b.unicode_len();
    let mut i: usize = 0;
    while i < na && i < nb && a.get_char(i) == b.get_char(i)
        invariant
            na == a@.len(),
            nb == b@.len(),
            i <= na,
            i <= nb,
            forall|j: int| 0 <= j < i ==> a@[j] == b@[j],
            lex_lt(a@, b@) == lex_lt(a@.skip(i as int), b@.skip(i as int)),
        decreases na - i,
    {
        proof {
            assert(a@.skip(i as int).drop_first() =~= a@.skip(i + 1));
            assert(b@.skip(i as int).drop_first() =~= b@.skip(i + 1));
            assert(a@.skip(i as int)[0] == a@[i as int]);
            assert(b@.skip(i as int)[0] == b@[i as int]);
        }
        i = i + 1;
    }
    proof {
        if i < na && i < nb {
            assert(a@.skip(i as int)[0] == a@[i as int]);
            assert(b@.skip(i as int)[0] == b@[i as int]);
        }
    }
    if i == na {
        i < nb
    } else if i == nb {
        false
    } else {
        a.get_char(i) < b.get_char(i)
    }
}

/// A record with a text key to sort by.
pub trait Keyed {
    /// The sort key.
    spec fn key(&self) -> Seq<char>;

    /// The sort key, to compare.
    fn key_str(&self) -> (r: &str)
        ensures
            r@ == self.key();
}

/// `a` sorts strictly before `b`: by ascending key, or by descending key.
pub open spec fn sorts_before(a: Seq<char>, b: Seq<char>, descending: bool) -> bool {
    if descending {
        lex_lt(b, a)
    } else {
        lex_lt(a, b)
    }
}

/// Whether key `a` sorts strictly before key `b`.
pub fn key_sorts_before(a: &str, b: &str, descending: bool) -> (r: bool)
    ensures
        r == sorts_before(a@, b@, descending),
{
    if descending {
        str_lt(b, a)
    } else {
        str_lt(a, b)
    }
}

/// `x` inserted into `s` before the first element it sorts strictly before, so after
/// every element with an equal key.
pub open spec fn insert_stable<T>(s: Seq<T>, x: T, key: spec_fn(T) -> Seq<char>, descending: bool) -> Seq<T>
    decreases s.len(),
{
    if s.len() == 0 {
        seq![x]
    } else if sorts_before(key(x), key(s[0]), descending) {
        seq![x] + s
    } else {
        seq![s[0]] + insert_stable(s.drop_first(), x, key, descending)
    }
}

/// `s` sorted stably by key: each element inserted in list order after the elements
/// whose key it does not sort before.
pub open spec fn sorted_stable<T>(s: Seq<T>, key: spec_fn(T) -> Seq<char>, descending: bool) -> Seq<T>
    decreases s.len(),
{
    if s.len() == 0 {
        s
    } else {
        insert_stable(sorted_stable(s.drop_last(), key, descending), s.last(), key, descending)
    }
}

/// The key of a keyed record.
pub open spec fn key_of<T: Keyed>() -> spec_fn(T) -> Seq<char> {
    |x: T| x.key()
}

proof fn lemma_insert_at<T>(s: Seq<T>, x: T, p: int, key: spec_fn(T) -> Seq<char>, descending: bool)
    requires
        0 <= p <= s.len(),
        forall|j: int| 0 <= j < p ==> !sorts_before(key(x), key(#[trigger] s[j]), descending),
        p == s.len() || sorts_before(key(x), key(s[p]), descending),
    ensures
        insert_stable(s, x, key, descending) == s.insert(p, x),
    decreases s.len(),
{
    if s.len() == 0 {
        assert(s.insert(p, x) =~= seq![x]);
    } else if p == 0 {
        assert(s.insert(p, x) =~= seq![x] + s);
    } else {
        let t = s.drop_first();
        assert forall|j: int| 0 <= j < p - 1 implies !sorts_before(key(x), key(#[trigger] t[j]), descending) by {
            assert(t[j] == s[j + 1]);
        }
        if p - 1 < t.len() {
            assert(t[p - 1] == s[p]);
        }
        lemma_insert_at(t, x, p - 1, key, descending);
        assert(s.insert(p, x) =~= seq![s[0]] + t.insert(p - 1, x));
    }
}

/// `v` sorted stably by key, ascending or descending.
pub fn sort_stable<T: Keyed>(v: Vec<T>, descending: bool) -> (r: Vec<T>)
    ensures
        r@ == sorted_stable(v@, key_of::<T>(), descending),
{
    let mut rest = v;
    let ghost orig = rest@;
    let mut sorted: Vec<T> = Vec::new();
    let ghost mut k: int = 0;
    while rest.len() > 0
        invariant
            0 <= k <= orig.len(),
            rest@ == orig.skip(k),
            sorted@ == sorted_stable(orig.take(k), key_of::<T>(), descending),
        decreases rest@.len(),
    {
        let x = rest.remove(0);
        proof {
            assert(x == orig[k]);
            assert(orig.take(k + 1).drop_last() =~= orig.take(k));
            assert(orig.take(k + 1).last() == orig[k]);
        }
        let mut p: usize = 0;
        while p < sorted.len() && !key_sorts_before(x.key_str(), sorted[p].key_str(), descending)
            invariant
                p <= sorted@.len(),
                forall|j: int| 0 <= j < p ==> !sorts_before(x.key(), (#[trigger] sorted@[j]).key(), descending),
            decreases sorted@.len() - p,
        {
            p = p + 1;
        }
        proof {
            lemma_insert_at(sorted@, x, p as int, key_of::<T>(), descending);
        }
        sorted.insert(p, x);
        proof {
            assert(rest@ =~= orig.skip(k + 1));
            k = k + 1;
        }
    }
    proof {
        assert(orig.take(k) =~= orig);
    }
    sorted
}

/// Every element's key does not sort before the previous one's.
pub open spec fn is_sorted<T>(s: Seq<T>, key: spec_fn(T) -> Seq<char>, descending: bool) -> bool {
    forall|i: int, j: int| 0 <= i < j < s.len() ==> !sorts_before(#[trigger] key(s[j]), #[trigger] key(s[i]), descending)
}

proof fn lemma_lex_lt_irreflexive(a: Seq<char>)
    ensures
        !lex_lt(a, a),
    decreases a.len(),
{
    if a.len() > 0 {
        lemma_lex_lt_irreflexive(a.drop_first());
    }
}

proof fn lemma_lex_lt_transitive(a: Seq<char>, b: Seq<char>, c: Seq<char>)
    requires
        lex_lt(a, b),
        lex_lt(b, c),
    ensures
        lex_lt(a, c),
    decreases a.len(),
{
    if a.len() > 0 && b.len() > 0 && c.len() > 0 {
        if a[0] == b[0] && b[0] == c[0] {
            lemma_lex_lt_transitive(a.drop_first(), b.drop_first(), c.drop_first());
        }
    }
}

proof fn lemma_sorts_before_transitive(a: Seq<char>, b: Seq<char>, c: Seq<char>, descending: bool)
    requires
        sorts_before(a, b, descending),
        sorts_before(b, c, descending),
    ensures
        sorts_before(a, c, descending),
{
    if descending {
        lemma_lex_lt_transitive(c, b, a);
    } else {
        lemma_lex_lt_transitive(a, b, c);
    }
}

proof fn lemma_sorts_before_irreflexive(a: Seq<char>, descending: bool)
    ensures
        !sorts_before(a, a, descending),
{
    lemma_lex_lt_irreflexive(a);
}

proof fn lemma_insert_stable_sorted<T>(s: Seq<T>, x: T, key: spec_fn(T) -> Seq<char>, descending: bool)
    requires
        is_sorted(s, key, descending),
    ensures
        is_sorted(insert_stable(s, x, key, descending), key, descending),
        insert_stable(s, x, key, descending).to_multiset() == s.to_multiset().insert(x),
    decreases s.len(),
{
    let r = insert_stable(s, x, key, descending);
    if s.len() == 0 {
        assert(r =~= seq![x]);
        assert(s.push(x) =~= seq![x]);
        s.to_multiset_ensures();
    } else if sorts_before(key(x), key(s[0]), descending) {
        assert forall|i: int, j: int| 0 <= i < j < r.len() implies !sorts_before(
            #[trigger] key(r[j]),
            #[trigger] key(r[i]),
            descending,
        ) by {
            if i == 0 {
                assert(r[j] == s[j - 1]);
                if sorts_before(key(s[j - 1]), key(x), descending) {
                    lemma_sorts_before_transitive(key(s[j - 1]), key(x), key(s[0]), descending);
                    if j - 1 == 0 {
                        lemma_sorts_before_irreflexive(key(s[0]), descending);
                    }
                }
            } else {
                assert(r[i] == s[i - 1] && r[j] == s[j - 1]);
            }
        }
        assert(r =~= seq![x] + s);
        vstd::seq_lib::lemma_multiset_commutative(seq![x], s);
        let e = Seq::<T>::empty();
        e.to_multiset_ensures();
        assert(e.push(x) =~= seq![x]);
        assert(e.to_multiset() =~= vstd::multiset::Multiset::empty());
        assert(seq![x].to_multiset().add(s.to_multiset()) =~= s.to_multiset().insert(x));
    } else {
        let t = s.drop_first();
        assert forall|i: int, j: int| 0 <= i < j < t.len() implies !sorts_before(
            #[trigger] key(t[j]),
            #[trigger] key(t[i]),
            descending,
        ) by {
            assert(t[i] == s[i + 1] && t[j] == s[j + 1]);
        }
        lemma_insert_stable_sorted(t, x, key, descending);
        let it = insert_stable(t, x, key, descending);
        assert(r =~= seq![s[0]] + it);
        it.to_multiset_ensures();
        assert forall|k: int| 0 <= k < it.len() implies !sorts_before(#[trigger] key(it[k]), key(s[0]), descending) by {
            assert(it.to_multiset().count(it[k]) > 0);
            assert(it.contains(it[k]));
            t.to_multiset_ensures();
            if it[k] != x {
                assert(t.to_multiset().insert(x).count(it[k]) > 0);
                assert(t.to_multiset().count(it[k]) > 0);
                assert(t.contains(it[k]));
                let w = choose|w: int| 0 <= w < t.len() && t[w] == it[k];
                assert(s[w + 1] == it[k]);
            }
        }
        assert forall|i: int, j: int| 0 <= i < j < r.len() implies !sorts_before(
            #[trigger] key(r[j]),
            #[trigger] key(r[i]),
            descending,
        ) by {
            if i == 0 {
                assert(r[j] == it[j - 1]);
            } else {
                assert(r[i] == it[i - 1] && r[j] == it[j - 1]);
            }
        }
        vstd::seq_lib::lemma_multiset_commutative(seq![s[0]], it);
        vstd::seq_lib::lemma_multiset_commutative(seq![s[0]], t);
        assert(s =~= seq![s[0]] + t);
    }
}

/// A stable sort gives a sorted list holding exactly the elements it was given.
pub proof fn law_sorted_stable<T>(s: Seq<T>, key: spec_fn(T) -> Seq<char>, descending: bool)
    ensures
        is_sorted(sorted_stable(s, key, descending), key, descending),
        sorted_stable(s, key, descending).to_multiset() == s.to_multiset(),
    decreases s.len(),
{
    if s.len() > 0 {
        law_sorted_stable(s.drop_last(), key, descending);
        lemma_insert_stable_sorted(sorted_stable(s.drop_last(), key, descending), s.last(), key, descending);
        s.drop_last().to_multiset_ensures();
        assert(s =~= s.drop_last().push(s.last()));
    } else {
        assert(s.to_multiset() =~= vstd::multiset::Multiset::empty());
    }
}


proof fn lemma_insert_map<T, V>(
    s: Seq<T>,
    x: T,
    f: spec_fn(T) -> V,
    k1: spec_fn(T) -> Seq<char>,
    k2: spec_fn(V) -> Seq<char>,
    descending: bool,
)
    requires
        forall|y: T| #[trigger] k2(f(y)) == k1(y),
    ensures
        insert_stable(s, x, k1, descending).map_values(f) == insert_stable(s.map_values(f), f(x), k2, descending),
    decreases s.len(),
{
    assert(k2(f(x)) == k1(x));
    if s.len() > 0 {
        assert(k2(f(s[0])) == k1(s[0]));
        assert(s.map_values(f)[0] == f(s[0]));
        assert(s.map_values(f).drop_first() =~= s.drop_first().map_values(f));
        lemma_insert_map(s.drop_first(), x, f, k1, k2, descending);
        if sorts_before(k1(x), k1(s[0]), descending) {
            assert((seq![x] + s).map_values(f) =~= seq![f(x)] + s.map_values(f));
        } else {
            assert((seq![s[0]] + insert_stable(s.drop_first(), x, k1, descending)).map_values(f) =~= seq![f(s[0])]
                + insert_stable(s.drop_first(), x, k1, descending).map_values(f));
        }
    } else {
        assert(seq![x].map_values(f) =~= seq![f(x)]);
    }
}

/// Sorting commutes with a map that keeps the keys: sorting records and then
/// taking their views gives the views sorted.
pub proof fn lemma_sorted_map<T, V>(
    s: Seq<T>,
    f: spec_fn(T) -> V,
    k1: spec_fn(T) -> Seq<char>,
    k2: spec_fn(V) -> Seq<char>,
    descending: bool,
)
    requires
        forall|y: T| #[trigger] k2(f(y)) == k1(y),
    ensures
        sorted_stable(s, k1, descending).map_values(f) == sorted_stable(s.map_values(f), k2, descending),
    decreases s.len(),
{
    if s.len() > 0 {
        lemma_sorted_map(s.drop_last(), f, k1, k2, descending);
        assert(s.map_values(f).drop_last() =~= s.drop_last().map_values(f));
        assert(s.map_values(f).last() == f(s.last()));
        lemma_insert_map(sorted_stable(s.drop_last(), k1, descending), s.last(), f, k1, k2, descending);
    } else {
        assert(s.map_values(f) =~= Seq::<V>::empty());
    }
}

} // verus!
