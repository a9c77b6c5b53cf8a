//! Stable insertion sort over a total preorder, and the lexicographic order on
//! character sequences (code-point order, which is also the byte order of their
//! UTF-8 encodings and so the order of Rust's `str`).
use vstd::prelude::*;

verus! {

/// A total preorder on `Self` with an executable comparison.
pub trait KeyOrder: Sized {
    spec fn key_le(&self, other: &Self) -> bool;

    proof fn lemma_total(a: &Self, b: &Self)
        ensures
            a.key_le(b) || b.key_le(a),
    ;

    proof fn lemma_trans(a: &Self, b: &Self, c: &Self)
        requires
            a.key_le(b),
            b.key_le(c),
        ensures
            a.key_le(c),
    ;

    fn le_exec(&self, other: &Self) -> (r: bool)
        ensures
            r == self.key_le(other),
    ;
}

/// Insert `x` into `t` after every trailing element that is not above it (the
/// stable insertion step).
pub open spec fn ins<T: KeyOrder>(t: Seq<T>, x: T) -> Seq<T>
    decreases t.len(),
{
    if t.len() == 0 {
        seq![x]
    } else if t.last().key_le(&x) {
        t.push(x)
    } else {
        ins(t.drop_last(), x).push(t.last())
    }
}

/// Stable insertion sort: the elements of `s` inserted one by one, in order.
pub open spec fn isort<T: KeyOrder>(s: Seq<T>) -> Seq<T>
    decreases s.len(),
{
    if s.len() == 0 {
        Seq::empty()
    } else {
        ins(isort(s.drop_last()), s.last())
    }
}

pub open spec fn sorted_by<T: KeyOrder>(s: Seq<T>) -> bool {
    forall|i: int, j: int| 0 <= i < j < s.len() ==> s[i].key_le(&s[j])
}

fn ins_exec<T: KeyOrder>(v: &mut Vec<T>, x: T)
    ensures
        final(v)@ == ins(old(v)@, x),
{
    let ghost t = v@;
    let mut k: usize = v.len();
    assert(t.take(k as int) =~= t);
    assert(t.skip(k as int) =~= Seq::<T>::empty());
    while k > 0 && !v[k - 1].le_exec(&x)
        invariant
            v@ == t,
            k <= t.len(),
            ins(t, x) == ins(t.take(k as int), x) + t.skip(k as int),
        decreases k,
    {
        proof {
            let tk = t.take(k as int);
            assert(tk.drop_last() =~= t.take(k - 1));
            assert(tk.last() == t[k - 1]);
            assert(t.skip(k - 1) =~= seq![t[k - 1]] + t.skip(k as int));
            assert(ins(tk, x) == ins(t.take(k - 1), x).push(t[k - 1]));
            assert(ins(t.take(k - 1), x).push(t[k - 1]) + t.skip(k as int) =~= ins(
                t.take(k - 1),
                x,
            ) + t.skip(k - 1));
        }
        k = k - 1;
    }
    proof {
        let tk = t.take(k as int);
        if k == 0 {
            assert(tk =~= Seq::<T>::empty());
        } else {
            assert(tk.last() == t[k - 1]);
        }
        assert(ins(tk, x) =~= tk.push(x));
        assert(t.insert(k as int, x) =~= tk.push(x) + t.skip(k as int));
    }
    v.insert(k, x);
}

/// Sort `v` stably by [`KeyOrder`].
pub fn isort_exec<T: KeyOrder>(v: Vec<T>) -> (r: Vec<T>)
    ensures
        r@ == isort(v@),
{
    let ghost orig = v@;
    let mut rest = v;
    let mut out: Vec<T> = Vec::new();
    let mut i: usize = 0;
    assert(orig.take(0) =~= Seq::<T>::empty());
    assert(orig.skip(0) =~= orig);
    assert(orig.len() == rest.len());
    while rest.len() > 0
        invariant
            i <= orig.len(),
            orig.len() <= usize::MAX,
            rest@ == orig.skip(i as int),
            out@ == isort(orig.take(i as int)),
        decreases rest.len(),
    {
        let x = rest.remove(0);
        proof {
            assert(orig.take(i + 1).drop_last() =~= orig.take(i as int));
            assert(orig.take(i + 1).last() == x);
            assert(orig.skip(i as int).remove(0) =~= orig.skip(i + 1));
        }
        ins_exec(&mut out, x);
        i = i + 1;
    }
    assert(orig.take(i as int) =~= orig);
    out
}

pub proof fn lemma_ins_sorted<T: KeyOrder>(t: Seq<T>, x: T)
    requires
        sorted_by(t),
    ensures
        sorted_by(ins(t, x)),
        ins(t, x).to_multiset() =~= t.to_multiset().insert(x),
        ins(t, x).len() == t.len() + 1,
    decreases t.len(),
{
    broadcast use vstd::seq_lib::group_to_multiset_ensures;

    if t.len() == 0 {
        assert(seq![x] =~= Seq::<T>::empty().push(x));
    } else if t.last().key_le(&x) {
        let r = t.push(x);
        assert forall|i: int, j: int| 0 <= i < j < r.len() implies r[i].key_le(&r[j]) by {
            if j == t.len() {
                if i < t.len() - 1 {
                    T::lemma_trans(&t[i], &t.last(), &x);
                }
            }
        }
    } else {
        let u = t.drop_last();
        assert(sorted_by(u));
        lemma_ins_sorted(u, x);
        let w = ins(u, x);
        let r = w.push(t.last());
        T::lemma_total(&t.last(), &x);
        assert(t =~= u.push(t.last()));
        lemma_ins_members(u, x);
        assert forall|i: int, j: int| 0 <= i < j < r.len() implies r[i].key_le(&r[j]) by {
            if j == w.len() {
                // every element of w is u's element or x; both are below t.last()
                if w[i] == x {
                } else {
                    let k = choose|k: int| 0 <= k < u.len() && u[k] == w[i];
                    assert(t[k] == u[k]);
                    assert(t[k].key_le(&t[t.len() - 1]));
                }
            }
        }
        assert(t.to_multiset() =~= u.to_multiset().insert(t.last()));
    }
}

/// Every element of `ins(t, x)` is `x` or an element of `t`.
pub proof fn lemma_ins_members<T: KeyOrder>(t: Seq<T>, x: T)
    ensures
        forall|i: int|
            0 <= i < ins(t, x).len() ==> ins(t, x)[i] == x || exists|k: int|
                0 <= k < t.len() && t[k] == #[trigger] ins(t, x)[i],
        ins(t, x).len() == t.len() + 1,
    decreases t.len(),
{
    if t.len() == 0 {
    } else if t.last().key_le(&x) {
        let r = t.push(x);
        assert forall|i: int| 0 <= i < r.len() implies r[i] == x || exists|k: int|
            0 <= k < t.len() && t[k] == #[trigger] r[i] by {
            if i < t.len() {
                assert(t[i] == r[i]);
            }
        }
    } else {
        let u = t.drop_last();
        lemma_ins_members(u, x);
        let w = ins(u, x);
        let r = w.push(t.last());
        assert forall|i: int| 0 <= i < r.len() implies r[i] == x || exists|k: int|
            0 <= k < t.len() && t[k] == #[trigger] r[i] by {
            if i == w.len() {
                assert(t[t.len() - 1] == r[i]);
            } else if w[i] != x {
                let k = choose|k: int| 0 <= k < u.len() && u[k] == #[trigger] w[i];
                assert(t[k] == r[i]);
            }
        }
    }
}

/// Insertion sort orders its input and keeps exactly its elements.
pub proof fn lemma_isort<T: KeyOrder>(s: Seq<T>)
    ensures
        sorted_by(isort(s)),
        isort(s).to_multiset() =~= s.to_multiset(),
        isort(s).len() == s.len(),
    decreases s.len(),
{
    broadcast use vstd::seq_lib::group_to_multiset_ensures;

    if s.len() > 0 {
        lemma_isort(s.drop_last());
        lemma_ins_sorted(isort(s.drop_last()), s.last());
        assert(s =~= s.drop_last().push(s.last()));
    }
}

// ---- lexicographic order on characters ------------------------------------------

/// `a <= b` in code-point lexicographic order (`str`'s `Ord`).
pub open spec fn lex_le(a: Seq<char>, b: Seq<char>) -> bool
    decreases a.len(),
{
    if a.len() == 0 {
        true
    } else if b.len() == 0 {
        false
    } else if a[0] == b[0] {
        lex_le(a.drop_first(), b.drop_first())
    } else {
        a[0] < b[0]
    }
}

pub proof fn lemma_lex_total(a: Seq<char>, b: Seq<char>)
    ensures
        lex_le(a, b) || lex_le(b, a),
    decreases a.len(),
{
    if a.len() > 0 && b.len() > 0 && a[0] == b[0] {
        lemma_lex_total(a.drop_first(), b.drop_first());
    }
}

pub proof fn lemma_lex_trans(a: Seq<char>, b: Seq<char>, c: Seq<char>)
    requires
        lex_le(a, b),
        lex_le(b, c),
    ensures
        lex_le(a, c),
    decreases a.len(),
{
    if a.len() > 0 && b.len() > 0 && c.len() > 0 && a[0] == b[0] && b[0] == c[0] {
        lemma_lex_trans(a.drop_first(), b.drop_first(), c.drop_first());
    }
}

pub proof fn lemma_lex_antisym(a: Seq<char>, b: Seq<char>)
    requires
        lex_le(a, b),
        lex_le(b, a),
    ensures
        a == b,
    decreases a.len(),
{
    if a.len() > 0 && b.len() > 0 {
        lemma_lex_antisym(a.drop_first(), b.drop_first());
        assert(a =~= seq![a[0]] + a.drop_first());
        assert(b =~= seq![b[0]] + b.drop_first());
    }
}

pub fn lex_le_exec(a: &Vec<char>, b: &Vec<char>) -> (r: bool)
    ensures
        r == lex_le(a@, b@),
{
    let mut i: usize = 0;
    assert(a@.skip(0) =~= a@);
    assert(b@.skip(0) =~= b@);
    while i < a.len() && i < b.len() && a[i] == b[i]
        invariant
            i <= a.len(),
            i <= b.len(),
            lex_le(a@, b@) == lex_le(a@.skip(i as int), b@.skip(i as int)),
        decreases a.len() - i,
    {
        assert(a@.skip(i as int).drop_first() =~= a@.skip(i + 1));
        assert(b@.skip(i as int).drop_first() =~= b@.skip(i + 1));
        i = i + 1;
    }
    if i == a.len() {
        true
    } else if i == b.len() {
        false
    } else {
        a[i] < b[i]
    }
}

/// Character sequences in lexicographic order.
impl KeyOrder for Vec<char> {
    open spec fn key_le(&self, other: &Self) -> bool {
        lex_le(self@, other@)
    }

    proof fn lemma_total(a: &Self, b: &Self) {
        lemma_lex_total(a@, b@);
    }

    proof fn lemma_trans(a: &Self, b: &Self, c: &Self) {
        lemma_lex_trans(a@, b@, c@);
    }

    fn le_exec(&self, other: &Self) -> (r: bool) {
        lex_le_exec(self, other)
    }
}

} // verus!
