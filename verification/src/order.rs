//! The order of names: lexicographic by code point, which is the order of `String`'s `Ord`
//! (UTF-8 preserves the order of code points), and sorted insertion by it.

use vstd::prelude::*;

use crate::search::{first_index, lemma_first_index};
use crate::report::string_views;
use crate::text::chars_of;

verus! {

/// `a` comes strictly before `b`: at the first place where they differ, `a` has the
/// smaller code point, or `a` is a proper prefix of `b`.
pub open spec fn chars_lt(a: Seq<char>, b: Seq<char>) -> bool
    decreases a.len(),
{
    if b.len() == 0 {
        false
    } else if a.len() == 0 {
        true
    } else if a[0] == b[0] {
        chars_lt(a.drop_first(), b.drop_first())
    } else {
        (a[0] as int) < (b[0] as int)
    }
}

/// No name comes before itself.
pub proof fn lemma_lt_irreflexive(a: Seq<char>)
    ensures
        !chars_lt(a, a),
    decreases a.len(),
{
    if a.len() > 0 {
        lemma_lt_irreflexive(a.drop_first());
    }
}

/// The order is transitive.
pub proof fn lemma_lt_transitive(a: Seq<char>, b: Seq<char>, c: Seq<char>)
    requires
        chars_lt(a, b),
        chars_lt(b, c),
    ensures
        chars_lt(a, c),
    decreases a.len(),
{
    if a.len() > 0 && b.len() > 0 && c.len() > 0 {
        if a[0] == b[0] && b[0] == c[0] {
            lemma_lt_transitive(a.drop_first(), b.drop_first(), c.drop_first());
        }
    }
}

/// Of two different names, one comes before the other.
pub proof fn lemma_lt_total(a: Seq<char>, b: Seq<char>)
    requires
        a != b,
    ensures
        chars_lt(a, b) || chars_lt(b, a),
    decreases a.len(),
{
    if a.len() > 0 && b.len() > 0 {
        if a[0] == b[0] {
            if a.drop_first() == b.drop_first() {
                assert(a =~= seq![a[0]] + a.drop_first());
                assert(b =~= seq![b[0]] + b.drop_first());
            }
            lemma_lt_total(a.drop_first(), b.drop_first());
        } else {
            assert((a[0] as int) != (b[0] as int));
        }
    } else if a.len() == 0 && b.len() == 0 {
        assert(a =~= b);
    }
}

/// Whether `a` comes strictly before `b`.
pub fn str_lt(a: &str, b: &str) -> (r: bool)
    ensures
        r == chars_lt(a@, b@),
{
    let x = chars_of(a);
    let y = chars_of(b);
    let mut i: usize = 0;
    proof {
        assert(x@.subrange(0, x@.len() as int) =~= x@);
        assert(y@.subrange(0, y@.len() as int) =~= y@);
    }
    while i < x.len() && i < y.len() && x[i] == y[i]
        invariant
            i <= x@.len(),
            i <= y@.len(),
            chars_lt(x@, y@) == chars_lt(x@.subrange(i as int, x@.len() as int), y@.subrange(
                i as int,
                y@.len() as int,
            )),
        decreases x@.len() - i,
    {
        proof {
            let xs = x@.subrange(i as int, x@.len() as int);
            let ys = y@.subrange(i as int, y@.len() as int);
            assert(xs.drop_first() =~= x@.subrange(i + 1, x@.len() as int));
            assert(ys.drop_first() =~= y@.subrange(i + 1, y@.len() as int));
        }
        i = i + 1;
    }
    proof {
        let xs = x@.subrange(i as int, x@.len() as int);
        let ys = y@.subrange(i as int, y@.len() as int);
        if i < x@.len() && i < y@.len() {
            assert(xs[0] == x@[i as int] && ys[0] == y@[i as int]);
        }
    }
    if i == y.len() {
        false
    } else if i == x.len() {
        true
    } else {
        let c: char = x[i];
        let d: char = y[i];
        c < d
    }
}

/// `s` is strictly increasing.
pub open spec fn strictly_sorted(s: Seq<Seq<char>>) -> bool {
    forall|i: int, j: int| 0 <= i < j < s.len() ==> chars_lt(#[trigger] s[i], #[trigger] s[j])
}

/// The place of `x` in `s`: before the first element that `x` comes before, or the end.
pub open spec fn sorted_place(s: Seq<Seq<char>>, x: Seq<char>) -> int {
    match first_index(s.len(), |j: int| chars_lt(x, s[j])) {
        Some(j) => j,
        None => s.len() as int,
    }
}

/// `s` with `x` inserted at its sorted place.
pub open spec fn insert_sorted(s: Seq<Seq<char>>, x: Seq<char>) -> Seq<Seq<char>> {
    s.insert(sorted_place(s, x), x)
}

/// The names of `s` in sorted order: each inserted, in turn, at its sorted place.
pub open spec fn sort_names(s: Seq<Seq<char>>) -> Seq<Seq<char>>
    decreases s.len(),
{
    if s.len() == 0 {
        s
    } else {
        insert_sorted(sort_names(s.drop_last()), s.last())
    }
}

/// Inserts `x` into `v` at its sorted place.
pub fn insert_name_sorted(v: &mut Vec<String>, x: String)
    ensures
        string_views(final(v)@) == insert_sorted(string_views(old(v)@), x@),
{
    let ghost s = string_views(v@);
    let ghost p = |j: int| chars_lt(x@, s[j]);
    let mut j: usize = 0;
    while j < v.len() && !str_lt(x.as_str(), v[j].as_str())
        invariant
            j <= v@.len(),
            s == string_views(v@),
            p == (|j: int| chars_lt(x@, s[j])),
            first_index(j as nat, p) is None,
        decreases v@.len() - j,
    {
        proof {
            crate::search::lemma_first_index_step(j as nat, p);
        }
        j = j + 1;
    }
    proof {
        lemma_first_index(v@.len() as nat, p);
        lemma_first_index(j as nat, p);
        if j < v@.len() {
            crate::search::lemma_first_index_step(j as nat, p);
            assert(p(j as int));
            assert(first_index(j as nat + 1, p) == Some(j as int));
            lemma_first_index_extends(j as nat + 1, v@.len() as nat, p);
        }
    }
    let ghost before = v@;
    v.insert(j, x);
    proof {
        assert(string_views(v@) =~= s.insert(j as int, x@));
    }
}

/// Once `first_index` has found an index, looking further finds the same one.
proof fn lemma_first_index_extends(m: nat, n: nat, p: spec_fn(int) -> bool)
    requires
        m <= n,
        first_index(m, p) is Some,
    ensures
        first_index(n, p) == first_index(m, p),
    decreases n,
{
    if n > m {
        lemma_first_index_extends(m, (n - 1) as nat, p);
    }
}

/// Inserting at the sorted place keeps a strictly sorted sequence strictly sorted, when `x`
/// is not already in it.
pub proof fn lemma_insert_sorted(s: Seq<Seq<char>>, x: Seq<char>)
    requires
        strictly_sorted(s),
        !s.contains(x),
    ensures
        strictly_sorted(insert_sorted(s, x)),
        insert_sorted(s, x).to_set() == s.to_set().insert(x),
        insert_sorted(s, x).len() == s.len() + 1,
{
    let p = |j: int| chars_lt(x, s[j]);
    lemma_first_index(s.len(), p);
    let k = sorted_place(s, x);
    let t = insert_sorted(s, x);
    assert forall|j: int| 0 <= j < k implies chars_lt(#[trigger] s[j], x) by {
        assert(!p(j));
        assert(s[j] != x);
        lemma_lt_total(s[j], x);
    }
    assert forall|j: int| k <= j < s.len() implies chars_lt(x, #[trigger] s[j]) by {
        assert(p(k));
        if j > k {
            lemma_lt_transitive(x, s[k], s[j]);
        }
    }
    assert forall|i: int, j: int| 0 <= i < j < t.len() implies chars_lt(
        #[trigger] t[i],
        #[trigger] t[j],
    ) by {
        if i < k && j < k {
            assert(t[i] == s[i] && t[j] == s[j]);
        } else if i < k && j == k {
            assert(t[i] == s[i]);
        } else if i < k {
            assert(t[i] == s[i] && t[j] == s[j - 1]);
        } else if i == k {
            assert(t[j] == s[j - 1]);
        } else {
            assert(t[i] == s[i - 1] && t[j] == s[j - 1]);
        }
    }
    assert forall|y: Seq<char>| t.to_set().contains(y) <==> s.to_set().insert(x).contains(y) by {
        if t.to_set().contains(y) {
            let i = choose|i: int| 0 <= i < t.len() && t[i] == y;
            if i < k {
                assert(s[i] == y);
            } else if i > k {
                assert(s[i - 1] == y);
            }
        }
        if s.to_set().contains(y) {
            let i = choose|i: int| 0 <= i < s.len() && s[i] == y;
            if i < k {
                assert(t[i] == y);
            } else {
                assert(t[i + 1] == y);
            }
        }
        if y == x {
            assert(t[k] == x);
        }
    }
    assert(t.to_set() =~= s.to_set().insert(x));
}

/// `sort_names` of a sequence without repeats is strictly sorted and holds the same names.
pub proof fn lemma_sort_names(s: Seq<Seq<char>>)
    requires
        s.no_duplicates(),
    ensures
        strictly_sorted(sort_names(s)),
        sort_names(s).to_set() == s.to_set(),
        sort_names(s).len() == s.len(),
    decreases s.len(),
{
    if s.len() > 0 {
        let init = s.drop_last();
        assert(init.no_duplicates());
        lemma_sort_names(init);
        assert(!init.contains(s.last())) by {
            if init.contains(s.last()) {
                let i = choose|i: int| 0 <= i < init.len() && init[i] == s.last();
                assert(s[i] == s[s.len() - 1]);
            }
        }
        assert(!sort_names(init).contains(s.last())) by {
            if sort_names(init).contains(s.last()) {
                let i = choose|i: int|
                    0 <= i < sort_names(init).len() && sort_names(init)[i] == s.last();
                assert(sort_names(init).to_set().contains(s.last()));
            }
        }
        lemma_insert_sorted(sort_names(init), s.last());
        assert(s =~= init.push(s.last()));
        assert(s.to_set() =~= init.to_set().insert(s.last()));
    } else {
        assert(s.to_set() =~= Set::<Seq<char>>::empty());
        assert(sort_names(s).to_set() =~= Set::<Seq<char>>::empty());
    }
}

} // verus!
