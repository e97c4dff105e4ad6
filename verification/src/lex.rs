//! Lexicographic ordering of character sequences, by unicode code point.
//!
//! Graph construction must not depend on the iteration order in which a
//! descriptor presents its transform entries, so the harness canonicalizes
//! entry names by sorting them under this total order.

use vstd::multiset::Multiset;
use vstd::prelude::*;

verus! {

/// `a` is lexicographically at most `b`, comparing code points left to right.
pub open spec fn lex_leq(a: Seq<char>, b: Seq<char>) -> bool
    decreases a.len(),
{
    if a.len() == 0 {
        true
    } else if b.len() == 0 {
        false
    } else if (a[0] as int) < (b[0] as int) {
        true
    } else if (b[0] as int) < (a[0] as int) {
        false
    } else {
        lex_leq(a.drop_first(), b.drop_first())
    }
}

/// The ordering as a closure value, in the form vstd's sorting lemmas expect.
pub open spec fn lex_leq_fn() -> spec_fn(Seq<char>, Seq<char>) -> bool {
    |a: Seq<char>, b: Seq<char>| lex_leq(a, b)
}

pub proof fn lemma_lex_refl(a: Seq<char>)
    ensures
        lex_leq(a, a),
    decreases a.len(),
{
    if a.len() != 0 {
        lemma_lex_refl(a.drop_first());
    }
}

pub proof fn lemma_lex_total(a: Seq<char>, b: Seq<char>)
    ensures
        lex_leq(a, b) || lex_leq(b, a),
    decreases a.len(),
{
    if a.len() != 0 && b.len() != 0 && a[0] == b[0] {
        lemma_lex_total(a.drop_first(), b.drop_first());
    }
}

pub proof fn lemma_lex_antisym(a: Seq<char>, b: Seq<char>)
    requires
        lex_leq(a, b),
        lex_leq(b, a),
    ensures
        a == b,
    decreases a.len(),
{
    if a.len() == 0 {
        assert(b.len() == 0);
        assert(a =~= b);
    } else {
        assert(b.len() != 0);
        assert((a[0] as int) == (b[0] as int));
        assert(a[0] == b[0]);
        lemma_lex_antisym(a.drop_first(), b.drop_first());
        assert(a.drop_first().len() == b.drop_first().len());
        assert(a.len() == b.len());
        assert forall|i: int| 0 <= i < a.len() implies a[i] == b[i] by {
            if i >= 1 {
                assert(a.drop_first()[i - 1] == b.drop_first()[i - 1]);
            }
        }
        assert(a =~= b);
    }
}

pub proof fn lemma_lex_trans(a: Seq<char>, b: Seq<char>, c: Seq<char>)
    requires
        lex_leq(a, b),
        lex_leq(b, c),
    ensures
        lex_leq(a, c),
    decreases a.len(),
{
    if a.len() != 0 && b.len() != 0 && c.len() != 0 && a[0] == b[0] && b[0] == c[0] {
        lemma_lex_trans(a.drop_first(), b.drop_first(), c.drop_first());
    }
}

/// The lexicographic order is a total ordering, so a sequence sorted under it
/// is uniquely determined by its multiset of elements.
pub proof fn lemma_lex_total_ordering()
    ensures
        vstd::relations::total_ordering(lex_leq_fn()),
{
    let r = lex_leq_fn();
    assert forall|a: Seq<char>| #[trigger] r(a, a) by {
        lemma_lex_refl(a);
    }
    assert forall|a: Seq<char>, b: Seq<char>| #[trigger] r(a, b) && #[trigger] r(b, a) implies a
        == b by {
        lemma_lex_antisym(a, b);
    }
    assert forall|a: Seq<char>, b: Seq<char>, c: Seq<char>|
        #[trigger] r(a, b) && #[trigger] r(b, c) implies r(a, c) by {
        lemma_lex_trans(a, b, c);
    }
    assert forall|a: Seq<char>, b: Seq<char>| #[trigger] r(a, b) || #[trigger] r(b, a) by {
        lemma_lex_total(a, b);
    }
}

/// Comparing suffixes agrees with comparing the full sequences when the
/// leading characters agree.
proof fn lemma_lex_skip(a: Seq<char>, b: Seq<char>, i: int)
    requires
        0 <= i <= a.len(),
        0 <= i <= b.len(),
        forall|j: int| 0 <= j < i ==> a[j] == b[j],
    ensures
        lex_leq(a, b) == lex_leq(a.skip(i), b.skip(i)),
    decreases i,
{
    if i > 0 {
        assert(a.len() > 0 && b.len() > 0);
        assert(a[0] == b[0]);
        assert(a.drop_first() =~= a.skip(1));
        assert(b.drop_first() =~= b.skip(1));
        lemma_lex_skip(a.skip(1), b.skip(1), i - 1);
        assert(a.skip(1).skip(i - 1) =~= a.skip(i));
        assert(b.skip(1).skip(i - 1) =~= b.skip(i));
    } else {
        assert(a.skip(0) =~= a);
        assert(b.skip(0) =~= b);
    }
}

/// Decides `lex_leq` on two strings.
pub fn str_leq(a: &String, b: &String) -> (r: bool)
    ensures
        r == lex_leq(a@, b@),
{
    let alen = a.as_str().unicode_len();
    let blen = b.as_str().unicode_len();
    let mut i: usize = 0;
    loop
        invariant
            i <= alen,
            i <= blen,
            alen == a@.len(),
            blen == b@.len(),
            forall|j: int| 0 <= j < i ==> a@[j] == b@[j],
        decreases alen - i,
    {
        proof {
            lemma_lex_skip(a@, b@, i as int);
        }
        if i == alen {
            assert(a@.skip(i as int).len() == 0);
            return true;
        }
        if i == blen {
            assert(b@.skip(i as int).len() == 0);
            assert(a@.skip(i as int).len() > 0);
            return false;
        }
        let ca = a.as_str().get_char(i);
        let cb = b.as_str().get_char(i);
        assert(a@.skip(i as int)[0] == a@[i as int]);
        assert(b@.skip(i as int)[0] == b@[i as int]);
        assert((ca as u32) == (ca as int) && (cb as u32) == (cb as int));
        if (ca as u32) < (cb as u32) {
            return true;
        }
        if (cb as u32) < (ca as u32) {
            return false;
        }
        assert(ca == cb);
        i = i + 1;
    }
}

/// The views of a sequence of strings.
pub open spec fn views_of(v: Seq<String>) -> Seq<Seq<char>> {
    v.map_values(|s: String| s@)
}

/// Linear membership test by string view.
pub fn contains_string(v: &Vec<String>, s: &String) -> (r: bool)
    ensures
        r == views_of(v@).contains(s@),
{
    let mut i: usize = 0;
    while i < v.len()
        invariant
            0 <= i <= v@.len(),
            forall|j: int| 0 <= j < i ==> views_of(v@)[j] != s@,
        decreases v@.len() - i,
    {
        if v[i].eq(s) {
            assert(views_of(v@)[i as int] == s@);
            return true;
        }
        i = i + 1;
    }
    assert(!views_of(v@).contains(s@));
    false
}

/// Index of a lexicographically least string.
fn min_index(v: &Vec<String>) -> (m: usize)
    requires
        v@.len() > 0,
    ensures
        m < v@.len(),
        forall|q: int| 0 <= q < v@.len() ==> lex_leq(v@[m as int]@, #[trigger] v@[q]@),
{
    let mut m: usize = 0;
    let mut i: usize = 1;
    proof {
        lemma_lex_refl(v@[0]@);
    }
    while i < v.len()
        invariant
            m < i <= v@.len(),
            forall|q: int| 0 <= q < i ==> lex_leq(v@[m as int]@, #[trigger] v@[q]@),
        decreases v@.len() - i,
    {
        if str_leq(&v[i], &v[m]) {
            proof {
                lemma_lex_refl(v@[i as int]@);
                assert forall|q: int| 0 <= q < i implies lex_leq(
                    v@[i as int]@,
                    #[trigger] v@[q]@,
                ) by {
                    lemma_lex_trans(v@[i as int]@, v@[m as int]@, v@[q]@);
                }
            }
            m = i;
        } else {
            proof {
                lemma_lex_total(v@[i as int]@, v@[m as int]@);
            }
        }
        i = i + 1;
    }
    m
}

/// Sorts the strings lexicographically.  The sorted sequence of views is
/// uniquely determined by the multiset of views, so two permutations of the
/// same names canonicalize identically.
pub fn sort_strings(v: Vec<String>) -> (r: Vec<String>)
    ensures
        vstd::relations::sorted_by(views_of(r@), lex_leq_fn()),
        views_of(r@).to_multiset() == views_of(v@).to_multiset(),
{
    broadcast use vstd::seq_lib::group_to_multiset_ensures;
    broadcast use vstd::multiset::group_multiset_axioms;

    let ghost orig = v@;
    let mut rest = v;
    let mut out: Vec<String> = Vec::new();
    proof {
        assert(views_of(out@).to_multiset().add(views_of(rest@).to_multiset()) =~= views_of(
            orig,
        ).to_multiset());
    }
    while rest.len() > 0
        invariant
            vstd::relations::sorted_by(views_of(out@), lex_leq_fn()),
            forall|p: int, q: int|
                0 <= p < out@.len() && 0 <= q < rest@.len() ==> lex_leq(
                    #[trigger] out@[p]@,
                    #[trigger] rest@[q]@,
                ),
            views_of(out@).to_multiset().add(views_of(rest@).to_multiset()) == views_of(
                orig,
            ).to_multiset(),
        decreases rest@.len(),
    {
        let m = min_index(&rest);
        let ghost prev_out = out@;
        let ghost prev_rest = rest@;
        let s = rest.remove(m);
        out.push(s);
        proof {
            assert(views_of(out@) =~= views_of(prev_out).push(s@));
            assert(views_of(rest@) =~= views_of(prev_rest).remove(m as int));
            assert(views_of(prev_rest)[m as int] == s@);
            let mo = views_of(prev_out).to_multiset();
            let mr = views_of(prev_rest).to_multiset();
            vstd::seq_lib::to_multiset_build(views_of(prev_out), s@);
            vstd::seq_lib::to_multiset_remove(views_of(prev_rest), m as int);
            assert(views_of(prev_out).push(s@).to_multiset() == mo.insert(s@));
            assert(views_of(prev_rest).remove(m as int).to_multiset() == mr.remove(
                views_of(prev_rest)[m as int],
            ));
            assert(views_of(out@).to_multiset() == mo.insert(s@));
            assert(views_of(rest@).to_multiset() == mr.remove(s@));
            assert(views_of(prev_rest).contains(s@));
            vstd::seq_lib::to_multiset_contains(views_of(prev_rest), s@);
            assert(mr.count(s@) > 0);
            assert forall|x: Seq<char>| mo.insert(s@).add(mr.remove(s@)).count(x) == mo.add(
                mr,
            ).count(x) by {
                assert(mo.insert(s@).count(s@) == mo.count(s@) + 1);
            }
            assert(views_of(out@).to_multiset().add(views_of(rest@).to_multiset()) =~= views_of(
                orig,
            ).to_multiset());
            assert forall|p: int, q: int|
                0 <= p < out@.len() && 0 <= q < rest@.len() implies lex_leq(
                #[trigger] out@[p]@,
                #[trigger] rest@[q]@,
            ) by {
                let qq = if q < m { q } else { q + 1 };
                assert(rest@[q] == prev_rest[qq]);
                if p < prev_out.len() {
                    assert(lex_leq(out@[p]@, rest@[q]@));
                } else {
                    assert(out@[p] == s);
                }
            }
            assert(vstd::relations::sorted_by(views_of(out@), lex_leq_fn())) by {
                assert forall|p: int, q: int|
                    0 <= p < q < views_of(out@).len() implies lex_leq_fn()(
                    views_of(out@)[p],
                    views_of(out@)[q],
                ) by {
                    if q < prev_out.len() {
                        assert(vstd::relations::sorted_by(views_of(prev_out), lex_leq_fn()));
                        assert(lex_leq_fn()(views_of(prev_out)[p], views_of(prev_out)[q]));
                    } else {
                        assert(out@[q] == s);
                        assert(lex_leq(prev_out[p]@, prev_rest[m as int]@));
                    }
                }
            }
        }
    }
    proof {
        let mo = views_of(out@).to_multiset();
        let mr = views_of(rest@).to_multiset();
        assert(views_of(rest@).len() == 0);
        assert forall|x: Seq<char>| mo.count(x) == views_of(orig).to_multiset().count(x) by {
            assert(!views_of(rest@).contains(x));
            vstd::seq_lib::to_multiset_contains(views_of(rest@), x);
            assert(mr.count(x) == 0);
            assert(mo.add(mr).count(x) == mo.count(x) + mr.count(x));
        }
        assert(mo =~= views_of(orig).to_multiset());
    }
    out
}

} // verus!
