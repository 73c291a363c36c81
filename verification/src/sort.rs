//! Lexicographic order on text and a sort that orders values by a text key.
use vstd::prelude::*;
use vstd::multiset::Multiset;

verus! {

broadcast use vstd::seq_lib::group_to_multiset_ensures;

/// `a` sorts strictly before `b` character by character (the order `str`
/// comparison uses).
pub open spec fn lex_lt(a: Seq<char>, b: Seq<char>) -> bool
    decreases a.len(),
{
    if a.len() == 0 {
        b.len() > 0
    } else if b.len() == 0 {
        false
    } else if a[0] != b[0] {
        a[0] < b[0]
    } else {
        lex_lt(a.drop_first(), b.drop_first())
    }
}

/// `a` sorts before `b` or equals it.
pub open spec fn lex_le(a: Seq<char>, b: Seq<char>) -> bool {
    a == b || lex_lt(a, b)
}

/// `lex_lt` is transitive.
pub proof fn lemma_lex_lt_transitive(a: Seq<char>, b: Seq<char>, c: Seq<char>)
    requires
        lex_lt(a, b),
        lex_lt(b, c),
    ensures
        lex_lt(a, c),
    decreases a.len(),
{
    if a.len() > 0 && b.len() > 0 && c.len() > 0 && a[0] == b[0] && b[0] == c[0] {
        lemma_lex_lt_transitive(a.drop_first(), b.drop_first(), c.drop_first());
    }
}

/// Two texts are equal or one sorts strictly before the other, never both ways.
pub proof fn lemma_lex_trichotomy(a: Seq<char>, b: Seq<char>)
    ensures
        lex_lt(a, b) || a == b || lex_lt(b, a),
        !(lex_lt(a, b) && lex_lt(b, a)),
        !lex_lt(a, a),
    decreases a.len(),
{
    if a.len() > 0 && b.len() > 0 && a[0] == b[0] {
        lemma_lex_trichotomy(a.drop_first(), b.drop_first());
        if a.drop_first() == b.drop_first() {
            assert(a =~= seq![a[0]] + a.drop_first());
            assert(b =~= seq![b[0]] + b.drop_first());
        }
    }
    if a.len() > 0 {
        lemma_lex_trichotomy(a.drop_first(), a.drop_first());
    }
}

/// `lex_le` is transitive.
pub proof fn lemma_lex_le_transitive(a: Seq<char>, b: Seq<char>, c: Seq<char>)
    requires
        lex_le(a, b),
        lex_le(b, c),
    ensures
        lex_le(a, c),
{
    if lex_lt(a, b) && lex_lt(b, c) {
        lemma_lex_lt_transitive(a, b, c);
    }
}

/// Executable `lex_lt`.
pub fn lex_less(a: &[char], b: &[char]) -> (r: bool)
    ensures
        r == lex_lt(a@, b@),
{
    let mut i: usize = 0;
    assert(a@.skip(0) =~= a@);
    assert(b@.skip(0) =~= b@);
    while i < a.len() && i < b.len() && a[i] == b[i]
        invariant
            i <= a.len(),
            i <= b.len(),
            lex_lt(a@, b@) == lex_lt(a@.skip(i as int), b@.skip(i as int)),
        decreases a.len() - i,
    {
        assert(a@.skip(i as int).drop_first() =~= a@.skip(i + 1));
        assert(b@.skip(i as int).drop_first() =~= b@.skip(i + 1));
        i = i + 1;
    }
    if i == a.len() {
        assert(a@.skip(i as int).len() == 0);
        i < b.len()
    } else if i == b.len() {
        false
    } else {
        assert(a@.skip(i as int)[0] == a@[i as int]);
        assert(b@.skip(i as int)[0] == b@[i as int]);
        a[i] < b[i]
    }
}

/// Mapping a function over two sequences with the same elements gives
/// sequences with the same elements.
pub proof fn lemma_map_values_multiset<A, B>(a: Seq<A>, b: Seq<A>, f: spec_fn(A) -> B)
    requires
        a.to_multiset() == b.to_multiset(),
    ensures
        a.map_values(f).to_multiset() == b.map_values(f).to_multiset(),
    decreases a.len(),
{
    broadcast use vstd::multiset::group_multiset_axioms;
    assert(a.to_multiset().len() == a.len());
    assert(b.to_multiset().len() == b.len());
    if a.len() == 0 {
        assert(b.len() == 0);
        assert(a.map_values(f) =~= b.map_values(f));
    } else {
        let x = a.last();
        assert(a.to_multiset().contains(x)) by {
            assert(a =~= a.drop_last().push(x));
        }
        assert(b.to_multiset().contains(x));
        assert(b.contains(x));
        let i = choose|i: int| 0 <= i < b.len() && b[i] == x;
        let b2 = b.remove(i);
        let a2 = a.drop_last();
        assert(a =~= a2.push(x));
        assert(a2.to_multiset() =~= a.to_multiset().remove(x));
        assert(b2.to_multiset() =~= b.to_multiset().remove(x));
        lemma_map_values_multiset(a2, b2, f);
        assert(a.map_values(f) =~= a2.map_values(f).push(f(x)));
        assert(b2.map_values(f) =~= b.map_values(f).remove(i));
        assert(b.map_values(f)[i] == f(x));
        assert(b.map_values(f).remove(i).to_multiset() == b.map_values(f).to_multiset().remove(f(x)));
        assert(b.map_values(f).to_multiset().contains(f(x)));
        assert(b.map_values(f).to_multiset() =~= b.map_values(f).to_multiset().remove(f(x)).insert(f(x)));
    }
}

/// Values sorted by a text key.
pub trait SortKey: Sized {
    /// The key values are ordered by.
    spec fn key(&self) -> Seq<char>;

    /// The key, as characters.
    fn key_chars(&self) -> (r: Vec<char>)
        ensures
            r@ == self.key(),
    ;
}

/// Every element's key sorts before or equals every later element's key.
pub open spec fn key_sorted<T: SortKey>(s: Seq<T>) -> bool {
    forall|i: int, j: int| 0 <= i < j < s.len() ==> lex_le(#[trigger] s[i].key(), #[trigger] s[j].key())
}

/// The elements of `s` whose key is `k`, in their order in `s`.
pub open spec fn with_key<T: SortKey>(s: Seq<T>, k: Seq<char>) -> Seq<T> {
    s.filter(|x: T| x.key() == k)
}

/// The same values as `v`, ordered by key; values with equal keys keep
/// their order in `v` (a stable sort).
pub fn sort_by_key<T: SortKey>(v: Vec<T>) -> (r: Vec<T>)
    ensures
        r@.to_multiset() == v@.to_multiset(),
        key_sorted(r@),
        forall|k: Seq<char>| #[trigger] with_key(r@, k) == with_key(v@, k),
{
    broadcast use vstd::seq_lib::group_filter_ensures;

    let ghost orig = v@;
    let mut rest = v;
    let mut r: Vec<T> = Vec::new();
    assert(orig.skip(orig.len() as int) =~= Seq::<T>::empty());
    assert(orig.take(orig.len() as int) =~= orig);
    proof {
        reveal(Seq::filter);
    }
    while rest.len() > 0
        invariant
            r@.to_multiset().add(rest@.to_multiset()) == orig.to_multiset(),
            key_sorted(r@),
            rest.len() <= orig.len(),
            rest@ == orig.take(rest.len() as int),
            forall|k: Seq<char>| #[trigger] with_key(r@, k) == with_key(
                orig.skip(rest.len() as int),
                k,
            ),
        decreases rest.len(),
    {
        let ghost before_rest = rest@;
        let x = rest.pop().unwrap();
        assert(before_rest =~= rest@.push(x));
        let ghost n = rest.len() as int;
        assert(rest@ =~= orig.take(n));
        assert(x == orig[n]);
        assert(orig.skip(n) =~= seq![x] + orig.skip(n + 1));
        let xk = x.key_chars();
        let mut p: usize = 0;
        while p < r.len() && lex_less(&r[p].key_chars(), &xk)
            invariant
                p <= r.len(),
                forall|i: int| 0 <= i < p ==> lex_lt(#[trigger] r@[i].key(), x.key()),
                xk@ == x.key(),
            decreases r.len() - p,
        {
            p = p + 1;
        }
        let ghost old_r = r@;
        proof {
            if p < r.len() {
                lemma_lex_trichotomy(xk@, r@[p as int].key());
            }
        }
        r.insert(p, x);
        assert(r@ == old_r.insert(p as int, x));
        assert forall|i: int, j: int| 0 <= i < j < r@.len() implies lex_le(
            #[trigger] r@[i].key(),
            #[trigger] r@[j].key(),
        ) by {
            if j < p {
                assert(r@[i] == old_r[i] && r@[j] == old_r[j]);
            } else if j == p {
                assert(r@[i] == old_r[i]);
            } else if i == p {
                assert(r@[j] == old_r[j - 1]);
                assert(lex_le(x.key(), old_r[p as int].key()));
                if j - 1 > p {
                    lemma_lex_le_transitive(x.key(), old_r[p as int].key(), old_r[j - 1].key());
                }
            } else if i < p {
                assert(r@[i] == old_r[i] && r@[j] == old_r[j - 1]);
            } else {
                assert(r@[i] == old_r[i - 1] && r@[j] == old_r[j - 1]);
            }
        }
        assert(r@.to_multiset() == old_r.to_multiset().insert(x));
        assert(before_rest.to_multiset() == rest@.to_multiset().insert(x));
        assert(r@.to_multiset().add(rest@.to_multiset()) =~= old_r.to_multiset().add(
            before_rest.to_multiset(),
        ));
        proof {
            let front = old_r.take(p as int);
            let back = old_r.skip(p as int);
            assert(old_r =~= front + back);
            assert(r@ =~= front + (seq![x] + back));
            assert forall|k: Seq<char>| #[trigger] with_key(r@, k) == with_key(
                orig.skip(n),
                k,
            ) by {
                let f = |y: T| y.key() == k;
                Seq::filter_distributes_over_add(front, seq![x] + back, f);
                Seq::filter_distributes_over_add(front, back, f);
                back.lemma_filter_prepend(x, f);
                orig.skip(n + 1).lemma_filter_prepend(x, f);
                if x.key() == k {
                    assert forall|i: int| 0 <= i < front.len() implies !f(#[trigger] front[i]) by {
                        assert(front[i] == old_r[i]);
                        lemma_lex_trichotomy(old_r[i].key(), x.key());
                    }
                    front.lemma_all_neg_filter_empty(f);
                }
                assert(with_key(old_r, k) == with_key(orig.skip(n + 1), k));
            }
        }
    }
    assert(rest@.to_multiset() =~= Multiset::empty());
    assert(r@.to_multiset().add(rest@.to_multiset()) =~= r@.to_multiset());
    assert(orig.skip(0) =~= orig);
    r
}

} // verus!
