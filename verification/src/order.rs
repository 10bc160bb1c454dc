//! Ordering records by name, and sets of strings kept as sorted lists.

use vstd::prelude::*;
use crate::text::{text_le, text_lt, string_le, lemma_text_le_total, lemma_text_le_trans,
    lemma_text_le_antisym, lemma_text_le_refl};

verus! {

/// A record with a name, by which lists of it are ordered.
pub trait Named {
    spec fn name_key(&self) -> Seq<char>;

    fn name_text(&self) -> (r: &String)
        ensures
            r@ == self.name_key(),
    ;
}

/// The name of a record, as a function.
pub open spec fn name_of<T: Named>() -> spec_fn(T) -> Seq<char> {
    |x: T| x.name_key()
}

/// Whether the keys of `s` are in order.
pub open spec fn sorted_by_key<T>(s: Seq<T>, key: spec_fn(T) -> Seq<char>) -> bool {
    forall|i: int, j: int| 0 <= i < j < s.len() ==> text_le(key(#[trigger] s[i]), key(#[trigger] s[j]))
}

/// `s` with `x` inserted after the last element whose key is not after `x`'s.
pub open spec fn insert_by_key<T>(s: Seq<T>, x: T, key: spec_fn(T) -> Seq<char>) -> Seq<T>
    decreases s.len(),
{
    if s.len() == 0 {
        seq![x]
    } else if text_le(key(s.last()), key(x)) {
        s.push(x)
    } else {
        insert_by_key(s.drop_last(), x, key).push(s.last())
    }
}

/// `s` ordered by key, elements of equal keys kept in their order (a stable
/// sort).
pub open spec fn sort_by_key<T>(s: Seq<T>, key: spec_fn(T) -> Seq<char>) -> Seq<T>
    decreases s.len(),
{
    if s.len() == 0 {
        s
    } else {
        insert_by_key(sort_by_key(s.drop_last(), key), s.last(), key)
    }
}

/// Where `insert_by_key` puts `x`.
pub open spec fn insert_position<T>(s: Seq<T>, x: T, key: spec_fn(T) -> Seq<char>) -> int
    decreases s.len(),
{
    if s.len() == 0 {
        0
    } else if text_le(key(s.last()), key(x)) {
        s.len() as int
    } else {
        insert_position(s.drop_last(), x, key)
    }
}

/// Inserting by key puts the element at `insert_position`: the keys of the
/// elements after it are ordered after its key, and the one just before it
/// is not.
pub proof fn lemma_insert_shape<T>(s: Seq<T>, x: T, key: spec_fn(T) -> Seq<char>)
    ensures
        0 <= insert_position(s, x, key) <= s.len(),
        insert_by_key(s, x, key) == s.take(insert_position(s, x, key)).push(x) + s.skip(
            insert_position(s, x, key),
        ),
        forall|i: int|
            insert_position(s, x, key) <= i < s.len() ==> !text_le(key(#[trigger] s[i]), key(x)),
        insert_position(s, x, key) > 0 ==> text_le(
            key(s[insert_position(s, x, key) - 1]),
            key(x),
        ),
    decreases s.len(),
{
    if s.len() == 0 {
        assert(insert_by_key(s, x, key) =~= s.take(0).push(x) + s.skip(0));
    } else if text_le(key(s.last()), key(x)) {
        assert(insert_by_key(s, x, key) =~= s.take(s.len() as int).push(x) + s.skip(
            s.len() as int,
        ));
    } else {
        let d = s.drop_last();
        lemma_insert_shape(d, x, key);
        let p = insert_position(d, x, key);
        assert(insert_by_key(s, x, key) =~= s.take(p).push(x) + s.skip(p));
        assert forall|i: int| p <= i < s.len() implies !text_le(key(#[trigger] s[i]), key(x)) by {
            if i < s.len() - 1 {
                assert(s[i] == d[i]);
            }
        }
    }
}

/// Inserting by key into a list in order keeps it in order and adds the one
/// element.
pub proof fn lemma_insert_by_key<T>(s: Seq<T>, x: T, key: spec_fn(T) -> Seq<char>)
    requires
        sorted_by_key(s, key),
    ensures
        sorted_by_key(insert_by_key(s, x, key), key),
        insert_by_key(s, x, key).to_multiset() == s.to_multiset().insert(x),
{
    lemma_insert_shape(s, x, key);
    let p = insert_position(s, x, key);
    let r = insert_by_key(s, x, key);
    let a = s.take(p);
    let b = s.skip(p);
    assert(r.len() == s.len() + 1);
    assert forall|i: int, j: int| 0 <= i < j < r.len() implies text_le(
        key(#[trigger] r[i]),
        key(#[trigger] r[j]),
    ) by {
        if j < p {
            assert(r[i] == s[i] && r[j] == s[j]);
        } else if j == p {
            assert(r[j] == x);
            assert(r[i] == s[i]);
            if i < p - 1 {
                lemma_text_le_trans(key(s[i]), key(s[p - 1]), key(x));
            }
        } else if i == p {
            assert(r[i] == x);
            assert(r[j] == s[j - 1]);
            lemma_text_le_total(key(s[j - 1]), key(x));
        } else if i < p {
            assert(r[i] == s[i]);
            assert(r[j] == s[j - 1]);
        } else {
            assert(r[i] == s[i - 1]);
            assert(r[j] == s[j - 1]);
        }
    }
    vstd::seq_lib::lemma_multiset_commutative(a.push(x), b);
    vstd::seq_lib::lemma_multiset_commutative(a, b);
    vstd::seq_lib::lemma_multiset_commutative(a, seq![x]);
    assert(a.push(x) =~= a + seq![x]);
    assert(s =~= a + b);
    assert(seq![x].to_multiset() =~= vstd::multiset::Multiset::<T>::empty().insert(x)) by {
        broadcast use vstd::seq_lib::group_to_multiset_ensures;

        assert(seq![x] =~= Seq::<T>::empty().push(x));
    }
    assert(r.to_multiset() =~= s.to_multiset().insert(x));
}

/// Ordering by key gives a list in order of the same elements.
pub proof fn lemma_sort_by_key<T>(s: Seq<T>, key: spec_fn(T) -> Seq<char>)
    ensures
        sorted_by_key(sort_by_key(s, key), key),
        sort_by_key(s, key).to_multiset() == s.to_multiset(),
    decreases s.len(),
{
    broadcast use vstd::seq_lib::group_to_multiset_ensures;

    if s.len() > 0 {
        lemma_sort_by_key(s.drop_last(), key);
        lemma_insert_by_key(sort_by_key(s.drop_last(), key), s.last(), key);
        assert(s =~= s.drop_last().push(s.last()));
    }
}

/// Ordering commutes with a map that keeps the keys.
pub proof fn lemma_sort_map<A, B>(
    s: Seq<A>,
    f: spec_fn(A) -> B,
    ka: spec_fn(A) -> Seq<char>,
    kb: spec_fn(B) -> Seq<char>,
)
    requires
        forall|a: A| #[trigger] kb(f(a)) == ka(a),
    ensures
        sort_by_key(s.map_values(f), kb) == sort_by_key(s, ka).map_values(f),
    decreases s.len(),
{
    if s.len() > 0 {
        lemma_sort_map(s.drop_last(), f, ka, kb);
        assert(s.map_values(f).drop_last() =~= s.drop_last().map_values(f));
        lemma_insert_map(sort_by_key(s.drop_last(), ka), s.last(), f, ka, kb);
    } else {
        assert(s.map_values(f) =~= Seq::<B>::empty());
    }
}

proof fn lemma_insert_map<A, B>(
    s: Seq<A>,
    x: A,
    f: spec_fn(A) -> B,
    ka: spec_fn(A) -> Seq<char>,
    kb: spec_fn(B) -> Seq<char>,
)
    requires
        forall|a: A| #[trigger] kb(f(a)) == ka(a),
    ensures
        insert_by_key(s.map_values(f), f(x), kb) == insert_by_key(s, x, ka).map_values(f),
    decreases s.len(),
{
    if s.len() == 0 {
        assert(insert_by_key(s.map_values(f), f(x), kb) =~= insert_by_key(s, x, ka).map_values(f));
    } else {
        assert(kb(f(s.last())) == ka(s.last()));
        assert(kb(f(x)) == ka(x));
        assert(s.map_values(f).last() == f(s.last()));
        if text_le(ka(s.last()), ka(x)) {
            assert(insert_by_key(s.map_values(f), f(x), kb) =~= insert_by_key(s, x, ka).map_values(
                f,
            ));
        } else {
            lemma_insert_map(s.drop_last(), x, f, ka, kb);
            assert(s.map_values(f).drop_last() =~= s.drop_last().map_values(f));
            assert(insert_by_key(s.map_values(f), f(x), kb) =~= insert_by_key(s, x, ka).map_values(
                f,
            ));
        }
    }
}

/// The position at which `insert_by_key` puts `x`, by name.
fn find_insert_position<T: Named>(s: &Vec<T>, x: &T) -> (p: usize)
    ensures
        p == insert_position(s@, *x, name_of::<T>()),
{
    let key = x.name_text();
    let mut j: usize = s.len();
    assert(s@.take(j as int) =~= s@);
    while j > 0 && !string_le(s[j - 1].name_text(), key)
        invariant
            j <= s.len(),
            key@ == x.name_key(),
            insert_position(s@, *x, name_of::<T>()) == insert_position(
                s@.take(j as int),
                *x,
                name_of::<T>(),
            ),
        decreases j,
    {
        assert(s@.take(j as int).drop_last() =~= s@.take(j - 1));
        j -= 1;
    }
    j
}

/// Orders records by name; records of equal names keep their order.
pub fn sort_by_name<T: Named>(v: Vec<T>) -> (out: Vec<T>)
    ensures
        out@ == sort_by_key(v@, name_of::<T>()),
{
    let ghost orig = v@;
    let mut rest = v;
    assert(orig.len() == rest.len());
    let mut out: Vec<T> = Vec::new();
    let mut k: usize = 0;
    assert(orig.take(0) =~= Seq::<T>::empty());
    assert(orig.skip(0) =~= orig);
    while rest.len() > 0
        invariant
            k + rest@.len() == orig.len(),
            orig.len() <= usize::MAX,
            rest@ == orig.skip(k as int),
            out@ == sort_by_key(orig.take(k as int), name_of::<T>()),
        decreases rest.len(),
    {
        let x = rest.remove(0);
        assert(orig.take(k + 1).drop_last() =~= orig.take(k as int));
        assert(orig.skip(k + 1) =~= orig.skip(k as int).drop_first());
        let p = find_insert_position(&out, &x);
        proof {
            lemma_insert_shape(out@, x, name_of::<T>());
        }
        let ghost before = out@;
        out.insert(p, x);
        assert(out@ =~= before.take(p as int).push(x) + before.skip(p as int));
        k += 1;
    }
    assert(orig.take(k as int) =~= orig);
    out
}

// ----------------------------------------------------------------------------
// Sets of strings, kept as lists in strictly increasing order (`BTreeSet<String>`)
// ----------------------------------------------------------------------------

/// Whether the strings of `s` are in strictly increasing order.
pub open spec fn strictly_sorted(s: Seq<Seq<char>>) -> bool {
    forall|i: int, j: int| 0 <= i < j < s.len() ==> text_lt(#[trigger] s[i], #[trigger] s[j])
}

/// `s` with `x` put in its place, if it is not there already.
pub open spec fn set_insert(s: Seq<Seq<char>>, x: Seq<char>) -> Seq<Seq<char>>
    decreases s.len(),
{
    if s.len() == 0 {
        seq![x]
    } else if s.last() == x {
        s
    } else if text_le(s.last(), x) {
        s.push(x)
    } else {
        set_insert(s.drop_last(), x).push(s.last())
    }
}

/// The strings of `s` as a set in order, each once.
pub open spec fn set_of(s: Seq<Seq<char>>) -> Seq<Seq<char>>
    decreases s.len(),
{
    if s.len() == 0 {
        s
    } else {
        set_insert(set_of(s.drop_last()), s.last())
    }
}

/// Adding a string to an ordered set keeps it ordered, and the set it holds
/// gains the string and nothing else.
pub proof fn lemma_set_insert(s: Seq<Seq<char>>, x: Seq<char>)
    requires
        strictly_sorted(s),
    ensures
        strictly_sorted(set_insert(s, x)),
        set_insert(s, x).to_set() == s.to_set().insert(x),
    decreases s.len(),
{
    let r = set_insert(s, x);
    if s.len() == 0 {
        assert(r.to_set() =~= s.to_set().insert(x)) by {
            assert(r[0] == x);
            assert(r.contains(x));
        }
    } else if s.last() == x {
        assert(r.to_set() =~= s.to_set().insert(x)) by {
            assert(s.contains(s.last()));
        }
    } else if text_le(s.last(), x) {
        assert forall|i: int, j: int| 0 <= i < j < r.len() implies text_lt(
            #[trigger] r[i],
            #[trigger] r[j],
        ) by {
            if j == s.len() {
                if i < s.len() - 1 {
                    lemma_text_le_trans(s[i], s.last(), x);
                    if s[i] == x {
                        lemma_text_le_antisym(s[i], s.last());
                    }
                }
            }
        }
        assert(r.to_set() =~= s.to_set().insert(x)) by {
            assert forall|e| r.contains(e) <==> s.contains(e) || e == x by {
                if r.contains(e) {
                    let i = choose|i: int| 0 <= i < r.len() && r[i] == e;
                    if i < s.len() {
                        assert(s.contains(e));
                    }
                }
                if s.contains(e) {
                    let i = choose|i: int| 0 <= i < s.len() && s[i] == e;
                    assert(r[i] == e);
                }
                if e == x {
                    assert(r[s.len() as int] == x);
                }
            }
        }
    } else {
        let d = s.drop_last();
        lemma_set_insert(d, x);
        let q = set_insert(d, x);
        lemma_text_le_total(s.last(), x);
        assert forall|e| q.contains(e) implies text_lt(e, s.last()) by {
            assert(q.to_set().contains(e));
            if e == x {
            } else {
                assert(d.to_set().contains(e));
                let i = choose|i: int| 0 <= i < d.len() && d[i] == e;
                assert(s[i] == e);
            }
        }
        assert forall|i: int, j: int| 0 <= i < j < r.len() implies text_lt(
            #[trigger] r[i],
            #[trigger] r[j],
        ) by {
            if j == r.len() - 1 {
                assert(q.contains(r[i]));
            } else {
                assert(r[i] == q[i] && r[j] == q[j]);
            }
        }
        assert(r.to_set() =~= s.to_set().insert(x)) by {
            assert forall|e| r.contains(e) <==> s.contains(e) || e == x by {
                if r.contains(e) {
                    let i = choose|i: int| 0 <= i < r.len() && r[i] == e;
                    if i < q.len() {
                        assert(q.contains(e));
                        assert(q.to_set().contains(e));
                        if e != x {
                            assert(d.to_set().contains(e));
                            let k = choose|k: int| 0 <= k < d.len() && d[k] == e;
                            assert(s[k] == e);
                        }
                    } else {
                        assert(e == s.last());
                        assert(s[s.len() - 1] == e);
                    }
                }
                if s.contains(e) {
                    let i = choose|i: int| 0 <= i < s.len() && s[i] == e;
                    if i == s.len() - 1 {
                        assert(r[q.len() as int] == e);
                    } else {
                        assert(d[i] == e);
                        assert(d.to_set().contains(e));
                        assert(q.to_set().contains(e));
                        let k = choose|k: int| 0 <= k < q.len() && q[k] == e;
                        assert(r[k] == e);
                    }
                }
                if e == x {
                    assert(q.to_set().contains(x));
                    let k = choose|k: int| 0 <= k < q.len() && q[k] == x;
                    assert(r[k] == x);
                }
            }
        }
    }
}

/// Adding a string that an ordered set already holds changes nothing: adding
/// the same string twice is adding it once.
pub proof fn lemma_set_insert_again(s: Seq<Seq<char>>, x: Seq<char>)
    requires
        strictly_sorted(s),
    ensures
        set_insert(set_insert(s, x), x) == set_insert(s, x),
{
    lemma_set_insert(s, x);
    let r = set_insert(s, x);
    assert(r.to_set().contains(x));
    lemma_set_insert_present(r, x);
}

proof fn lemma_set_insert_present(s: Seq<Seq<char>>, x: Seq<char>)
    requires
        strictly_sorted(s),
        s.contains(x),
    ensures
        set_insert(s, x) == s,
    decreases s.len(),
{
    if s.last() != x {
        let i = choose|i: int| 0 <= i < s.len() && s[i] == x;
        assert(i < s.len() - 1);
        assert(text_lt(s[i], s[s.len() - 1]));
        if text_le(s.last(), x) {
            lemma_text_le_antisym(s.last(), x);
        }
        assert(s.drop_last()[i] == x);
        lemma_set_insert_present(s.drop_last(), x);
        assert(s.drop_last().push(s.last()) =~= s);
    }
}

/// The ordered set of a list holds exactly the list's strings, in strictly
/// increasing order: what collecting into a `BTreeSet<String>` gives.
pub proof fn lemma_set_of(s: Seq<Seq<char>>)
    ensures
        strictly_sorted(set_of(s)),
        set_of(s).to_set() == s.to_set(),
    decreases s.len(),
{
    if s.len() == 0 {
        assert(set_of(s).to_set() =~= s.to_set());
    } else {
        lemma_set_of(s.drop_last());
        lemma_set_insert(set_of(s.drop_last()), s.last());
        assert(s.to_set() =~= s.drop_last().to_set().insert(s.last())) by {
            assert forall|e| s.contains(e) <==> s.drop_last().contains(e) || e == s.last() by {
                if s.contains(e) {
                    let i = choose|i: int| 0 <= i < s.len() && s[i] == e;
                    if i < s.len() - 1 {
                        assert(s.drop_last()[i] == e);
                    }
                }
                if s.drop_last().contains(e) {
                    let i = choose|i: int| 0 <= i < s.len() - 1 && s.drop_last()[i] == e;
                    assert(s[i] == e);
                }
                if e == s.last() {
                    assert(s[s.len() - 1] == e);
                }
            }
        }
    }
}

/// Adds `x` to the ordered set `s`.
pub fn string_set_insert(s: &mut Vec<String>, x: String)
    ensures
        final(s).deep_view() == set_insert(old(s).deep_view(), x@),
{
    let ghost orig = s.deep_view();
    let mut j: usize = s.len();
    assert(orig.take(j as int) =~= orig);
    assert(orig.skip(j as int) =~= Seq::<Seq<char>>::empty());
    while j > 0 && !string_le(&s[j - 1], &x)
        invariant
            j <= s.len(),
            s.deep_view() == orig,
            set_insert(orig, x@) == set_insert(orig.take(j as int), x@) + orig.skip(j as int),
        decreases j,
    {
        let ghost t = orig.take(j as int);
        assert(t.drop_last() =~= orig.take(j - 1));
        assert(t.last() == s[j - 1]@);
        proof {
            if t.last() == x@ {
                lemma_text_le_refl(x@);
            }
        }
        assert(orig.skip(j - 1) =~= seq![t.last()] + orig.skip(j as int));
        assert(set_insert(t, x@) =~= set_insert(orig.take(j - 1), x@).push(t.last()));
        assert(set_insert(orig.take(j - 1), x@).push(t.last()) + orig.skip(j as int)
            =~= set_insert(orig.take(j - 1), x@) + orig.skip(j - 1));
        j -= 1;
    }
    let ghost t = orig.take(j as int);
    if j > 0 {
        assert(t.last() == s[j - 1]@);
        if crate::text::string_is(&s[j - 1], x.as_str()) {
            assert(set_insert(t, x@) =~= t);
            assert(t + orig.skip(j as int) =~= orig);
            return;
        }
        assert(set_insert(t, x@) =~= t.push(x@));
    } else {
        assert(set_insert(t, x@) =~= seq![x@]);
    }
    let ghost xv = x@;
    s.insert(j, x);
    assert(s.deep_view() =~= orig.take(j as int).push(xv) + orig.skip(j as int));
}

/// Whether the ordered set `s` holds `x`.
pub fn string_set_contains(s: &Vec<String>, x: &str) -> (out: bool)
    ensures
        out == s.deep_view().contains(x@),
{
    let mut i: usize = 0;
    while i < s.len()
        invariant
            i <= s.len(),
            forall|k: int| 0 <= k < i ==> s.deep_view()[k] != x@,
        decreases s.len() - i,
    {
        if crate::text::string_is(&s[i], x) {
            assert(s.deep_view()[i as int] == x@);
            return true;
        }
        i += 1;
    }
    false
}

} // verus!
