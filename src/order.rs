//! Lexicographic order on character sequences and a sorted, duplicate-free collection.
use vstd::prelude::*;

verus! {

/// Strict lexicographic order, as `String` orders ASCII text.
pub open spec fn lex_lt(a: Seq<char>, b: Seq<char>) -> bool
    decreases a.len(),
{
    if a.len() == 0 {
        b.len() > 0
    } else if b.len() == 0 {
        false
    } else if a[0] < b[0] {
        true
    } else if a[0] == b[0] {
        lex_lt(a.drop_first(), b.drop_first())
    } else {
        false
    }
}

pub open spec fn strictly_sorted(v: Seq<Seq<char>>) -> bool {
    forall|i: int, j: int| 0 <= i < j < v.len() ==> lex_lt(#[trigger] v[i], #[trigger] v[j])
}

pub proof fn lemma_lex_trichotomy(a: Seq<char>, b: Seq<char>)
    ensures
        lex_lt(a, b) || lex_lt(b, a) || a == b,
    decreases a.len(),
{
    if a.len() > 0 && b.len() > 0 && a[0] == b[0] {
        lemma_lex_trichotomy(a.drop_first(), b.drop_first());
        if a.drop_first() == b.drop_first() {
            assert(a =~= seq![a[0]] + a.drop_first());
            assert(b =~= seq![b[0]] + b.drop_first());
        }
    } else if a.len() == 0 && b.len() == 0 {
        assert(a =~= b);
    }
}

pub proof fn lemma_lex_transitive(a: Seq<char>, b: Seq<char>, c: Seq<char>)
    requires
        lex_lt(a, b),
        lex_lt(b, c),
    ensures
        lex_lt(a, c),
    decreases a.len(),
{
    if a.len() > 0 && b.len() > 0 && c.len() > 0 && a[0] == b[0] && b[0] == c[0] {
        lemma_lex_transitive(a.drop_first(), b.drop_first(), c.drop_first());
    }
}

/// Equality of two character vectors.
pub fn same_chars(a: &Vec<char>, b: &Vec<char>) -> (r: bool)
    ensures
        r == (a@ == b@),
{
    if a.len() != b.len() {
        return false;
    }
    let mut i: usize = 0;
    while i < a.len()
        invariant
            i <= a@.len() == b@.len(),
            a@.subrange(0, i as int) =~= b@.subrange(0, i as int),
        decreases a@.len() - i,
    {
        if a[i] != b[i] {
            assert(a@[i as int] != b@[i as int]);
            return false;
        }
        i = i + 1;
    }
    assert(a@ =~= a@.subrange(0, i as int));
    assert(b@ =~= b@.subrange(0, i as int));
    true
}

/// Strict lexicographic comparison of two character vectors.
pub fn less_chars(a: &Vec<char>, b: &Vec<char>) -> (r: bool)
    ensures
        r == lex_lt(a@, b@),
{
    let mut i: usize = 0;
    assert(a@.subrange(0, a@.len() as int) =~= a@);
    assert(b@.subrange(0, b@.len() as int) =~= b@);
    while i < a.len() && i < b.len() && a[i] == b[i]
        invariant
            i <= a@.len(),
            i <= b@.len(),
            lex_lt(a@, b@) == lex_lt(a@.subrange(i as int, a@.len() as int), b@.subrange(
                i as int,
                b@.len() as int,
            )),
        decreases a@.len() - i,
    {
        let ghost sa = a@.subrange(i as int, a@.len() as int);
        let ghost sb = b@.subrange(i as int, b@.len() as int);
        assert(sa.drop_first() =~= a@.subrange(i + 1, a@.len() as int));
        assert(sb.drop_first() =~= b@.subrange(i + 1, b@.len() as int));
        i = i + 1;
    }
    if i == a.len() {
        i < b.len()
    } else if i == b.len() {
        false
    } else {
        a[i] < b[i]
    }
}

/// Insert `x` into a strictly sorted collection unless it is already there.
pub fn insert_sorted(v: &mut Vec<Vec<char>>, x: Vec<char>)
    requires
        strictly_sorted(old(v)@.map_values(|e: Vec<char>| e@)),
    ensures
        strictly_sorted(final(v)@.map_values(|e: Vec<char>| e@)),
        final(v)@.map_values(|e: Vec<char>| e@).to_set() == old(v)@.map_values(
            |e: Vec<char>| e@,
        ).to_set().insert(x@),
{
    let ghost sv = v@.map_values(|e: Vec<char>| e@);
    let mut k: usize = 0;
    while k < v.len() && less_chars(&v[k], &x)
        invariant
            k <= v@.len(),
            v@.map_values(|e: Vec<char>| e@) == sv,
            strictly_sorted(sv),
            forall|i: int| 0 <= i < k ==> lex_lt(#[trigger] sv[i], x@),
        decreases v@.len() - k,
    {
        k = k + 1;
    }
    if k < v.len() && same_chars(&v[k], &x) {
        proof {
            assert(sv[k as int] == x@);
            assert(sv.to_set().insert(x@) =~= sv.to_set());
        }
        return;
    }
    proof {
        if k < v@.len() {
            lemma_lex_trichotomy(sv[k as int], x@);
        }
    }
    v.insert(k, x);
    proof {
        let nv = v@.map_values(|e: Vec<char>| e@);
        assert(nv =~= sv.insert(k as int, x@));
        assert forall|i: int, j: int| 0 <= i < j < nv.len() implies lex_lt(
            #[trigger] nv[i],
            #[trigger] nv[j],
        ) by {
            if j == k {
            } else if i == k {
                if j > k + 1 {
                    lemma_lex_transitive(x@, sv[k as int], sv[j - 1]);
                }
            } else if i < k && j > k {
                assert(lex_lt(sv[i], x@));
            } else if i > k {
                assert(nv[i] == sv[i - 1] && nv[j] == sv[j - 1]);
            }
        }
        assert(nv.to_set() =~= sv.to_set().insert(x@)) by {
            assert forall|e: Seq<char>| nv.to_set().contains(e) <==> sv.to_set().insert(x@).contains(e) by {
                if nv.to_set().contains(e) {
                    let i = choose|i: int| 0 <= i < nv.len() && nv[i] == e;
                    if i < k {
                        assert(sv[i] == e);
                    } else if i > k {
                        assert(sv[i - 1] == e);
                    }
                }
                if sv.to_set().contains(e) {
                    let i = choose|i: int| 0 <= i < sv.len() && sv[i] == e;
                    if i < k {
                        assert(nv[i] == e);
                    } else {
                        assert(nv[i + 1] == e);
                    }
                }
                if e == x@ {
                    assert(nv[k as int] == e);
                }
            }
        }
    }
}

} // verus!
