//! Stable ordering of (value, original-index) records.
//!
//! The pair-sum sweep works on the input's (value, index) records arranged in
//! ascending order of value. To make the result reproducible, ties in value
//! are broken by original index, so the arrangement is the unique one that is
//! ascending in the lexicographic order [`lex_leq`]. [`sort_records`] builds
//! it by insertion, and its contract pins the output to the spec-level
//! insertion sort [`sorted_records`].

use vstd::prelude::*;

verus! {

/// Lexicographic order on (value, original-index) records: by value first,
/// then by index.
pub open spec fn lex_leq(a: (i32, i32), b: (i32, i32)) -> bool {
    a.0 < b.0 || (a.0 == b.0 && a.1 <= b.1)
}

/// `x` inserted into `s` at the first position whose record is not below `x`
/// in [`lex_leq`].
pub open spec fn inserted(s: Seq<(i32, i32)>, x: (i32, i32)) -> Seq<(i32, i32)>
    decreases s.len(),
{
    if s.len() == 0 {
        seq![x]
    } else if lex_leq(x, s[0]) {
        seq![x] + s
    } else {
        seq![s[0]] + inserted(s.drop_first(), x)
    }
}

/// Insertion sort of `s` under [`lex_leq`]: the records of `s`, rearranged in
/// ascending lexicographic order.
pub open spec fn sorted_records(s: Seq<(i32, i32)>) -> Seq<(i32, i32)>
    decreases s.len(),
{
    if s.len() == 0 {
        Seq::<(i32, i32)>::empty()
    } else {
        inserted(sorted_records(s.drop_last()), s.last())
    }
}

/// `inserted(s, x)` places `x` at the first position `p` whose record is not
/// below `x`, keeps the records before `p` in place, and shifts the rest one
/// position to the right.
pub proof fn lemma_inserted_shape(s: Seq<(i32, i32)>, x: (i32, i32)) -> (p: int)
    ensures
        0 <= p <= s.len(),
        inserted(s, x).len() == s.len() + 1,
        inserted(s, x)[p] == x,
        forall|k: int| 0 <= k < p ==> inserted(s, x)[k] == s[k],
        forall|k: int| p < k <= s.len() ==> inserted(s, x)[k] == s[k - 1],
        forall|k: int| 0 <= k < p ==> !lex_leq(x, #[trigger] s[k]),
        p < s.len() ==> lex_leq(x, s[p]),
    decreases s.len(),
{
    if s.len() == 0 {
        0
    } else if lex_leq(x, s[0]) {
        0
    } else {
        let rest = s.drop_first();
        let p0 = lemma_inserted_shape(rest, x);
        assert forall|k: int| 0 <= k < p0 + 1 implies inserted(s, x)[k] == s[k] by {
            if k > 0 {
                assert(inserted(s, x)[k] == inserted(rest, x)[k - 1]);
                assert(rest[k - 1] == s[k]);
            }
        }
        assert forall|k: int| p0 + 1 < k <= s.len() implies inserted(s, x)[k] == s[k - 1] by {
            assert(inserted(s, x)[k] == inserted(rest, x)[k - 1]);
            assert(rest[k - 2] == s[k - 1]);
        }
        assert forall|k: int| 0 <= k < p0 + 1 implies !lex_leq(x, #[trigger] s[k]) by {
            if k > 0 {
                assert(rest[k - 1] == s[k]);
            }
        }
        assert(p0 + 1 < s.len() ==> lex_leq(x, s[p0 + 1])) by {
            if p0 + 1 < s.len() {
                assert(rest[p0] == s[p0 + 1]);
            }
        }
        p0 + 1
    }
}

/// Returns the records of `pairs` arranged by [`sorted_records`]: ascending
/// by value, ties broken by original index.
pub fn sort_records(pairs: &Vec<(i32, i32)>) -> (r: Vec<(i32, i32)>)
    ensures
        r@ == sorted_records(pairs@),
{
    let mut r: Vec<(i32, i32)> = Vec::new();
    let mut i: usize = 0;
    while i < pairs.len()
        invariant
            i <= pairs@.len(),
            r@ == sorted_records(pairs@.take(i as int)),
        decreases pairs@.len() - i,
    {
        let x: (i32, i32) = pairs[i];
        let mut p: usize = 0;
        while p < r.len() && (r[p].0 < x.0 || (r[p].0 == x.0 && r[p].1 < x.1))
            invariant
                p <= r@.len(),
                forall|k: int| 0 <= k < p ==> !lex_leq(x, #[trigger] r@[k]),
            decreases r@.len() - p,
        {
            p = p + 1;
        }
        proof {
            lemma_insert_matches_first_position(r@, x, p as int);
            let prefix = pairs@.take(i as int + 1);
            assert(prefix.drop_last() =~= pairs@.take(i as int));
            assert(prefix.last() == pairs@[i as int]);
            assert(sorted_records(prefix) == inserted(r@, pairs@[i as int]));
            r@.insert_ensures(p as int, x);
            assert(r@.insert(p as int, x) =~= inserted(r@, x));
        }
        r.insert(p, x);
        i = i + 1;
    }
    proof {
        assert(pairs@.take(pairs@.len() as int) =~= pairs@);
    }
    r
}

/// When `p` is the first position of `s` whose record is not below `x`,
/// `inserted(s, x)` is exactly `s` with `x` inserted at `p`.
proof fn lemma_insert_matches_first_position(s: Seq<(i32, i32)>, x: (i32, i32), p: int)
    requires
        0 <= p <= s.len(),
        forall|k: int| 0 <= k < p ==> !lex_leq(x, #[trigger] s[k]),
        p < s.len() ==> lex_leq(x, s[p]),
    ensures
        inserted(s, x) == s.insert(p, x),
{
    let q = lemma_inserted_shape(s, x);
    assert(q == p) by {
        if q < p {
            assert(lex_leq(x, s[q]));
        }
        if p < q {
            assert(!lex_leq(x, s[p]));
        }
    }
    s.insert_ensures(p, x);
    assert(inserted(s, x) =~= s.insert(p, x));
}

} // verus!
