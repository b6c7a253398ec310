//! Lexicographic order on words, the executable comparison behind the sorted
//! result listing, and the uniqueness of a sorted listing of a word set.

use vstd::prelude::*;
use vstd::string::StrSliceExecFns;

verus! {

/// Lexicographic order on character sequences, by code point: `a` comes no
/// later than `b`.
pub open spec fn lex_le(a: Seq<char>, b: Seq<char>) -> bool
    decreases a.len(),
{
    if a.len() == 0 {
        true
    } else if b.len() == 0 {
        false
    } else if a[0] == b[0] {
        lex_le(a.drop_first(), b.drop_first())
    } else {
        a[0] < b[0]
    }
}

/// Strict lexicographic order.
pub open spec fn lex_lt(a: Seq<char>, b: Seq<char>) -> bool {
    lex_le(a, b) && a != b
}

/// The order is total.
pub proof fn lemma_lex_total(a: Seq<char>, b: Seq<char>)
    ensures
        lex_le(a, b) || lex_le(b, a),
    decreases a.len(),
{
    if a.len() != 0 && b.len() != 0 && a[0] == b[0] {
        lemma_lex_total(a.drop_first(), b.drop_first());
    }
}

/// The order is antisymmetric.
pub proof fn lemma_lex_antisym(a: Seq<char>, b: Seq<char>)
    requires
        lex_le(a, b),
        lex_le(b, a),
    ensures
        a == b,
    decreases a.len(),
{
    if a.len() == 0 {
        assert(b.len() == 0);
        assert(a =~= b);
    } else {
        assert(b.len() != 0);
        assert(a[0] == b[0]);
        lemma_lex_antisym(a.drop_first(), b.drop_first());
        assert(a.len() == b.len());
        assert forall|k: int| 0 <= k < a.len() implies a[k] == b[k] by {
            if k > 0 {
                assert(a[k] == a.drop_first()[k - 1]);
                assert(b[k] == b.drop_first()[k - 1]);
            }
        }
        assert(a =~= b);
    }
}

/// The order is transitive.
pub proof fn lemma_lex_trans(a: Seq<char>, b: Seq<char>, c: Seq<char>)
    requires
        lex_le(a, b),
        lex_le(b, c),
    ensures
        lex_le(a, c),
    decreases a.len(),
{
    if a.len() != 0 {
        assert(b.len() != 0);
        assert(c.len() != 0);
        if a[0] == b[0] && b[0] == c[0] {
            lemma_lex_trans(a.drop_first(), b.drop_first(), c.drop_first());
        }
    }
}

/// Strict order composes with the weak order.
pub proof fn lemma_lex_lt_le_trans(a: Seq<char>, b: Seq<char>, c: Seq<char>)
    requires
        lex_lt(a, b),
        lex_le(b, c),
    ensures
        lex_lt(a, c),
{
    lemma_lex_trans(a, b, c);
    if a == c {
        lemma_lex_antisym(a, b);
    }
}

/// Dropping an equal front piece from both words does not change their
/// order.
proof fn lemma_lex_skip(a: Seq<char>, b: Seq<char>, i: int)
    requires
        0 <= i <= a.len(),
        i <= b.len(),
        forall|j: int| 0 <= j < i ==> a[j] == b[j],
    ensures
        lex_le(a, b) == lex_le(a.skip(i), b.skip(i)),
    decreases i,
{
    if i > 0 {
        lemma_lex_skip(a.drop_first(), b.drop_first(), i - 1);
        assert(a.drop_first().skip(i - 1) =~= a.skip(i));
        assert(b.drop_first().skip(i - 1) =~= b.skip(i));
        assert(a[0] == b[0]);
    } else {
        assert(a.skip(0) =~= a);
        assert(b.skip(0) =~= b);
    }
}

/// Decides the lexicographic order of two strings.
pub fn str_le(a: &str, b: &str) -> (r: bool)
    ensures
        r == lex_le(a@, b@),
{
    let an = a.unicode_len();
    let bn = b.unicode_len();
    let mut i: usize = 0;
    loop
        invariant
            an == a@.len(),
            bn == b@.len(),
            i <= an,
            i <= bn,
            forall|j: int| 0 <= j < i ==> a@[j] == b@[j],
        decreases an - i,
    {
        proof {
            lemma_lex_skip(a@, b@, i as int);
        }
        if i >= an {
            return true;
        }
        if i >= bn {
            return false;
        }
        let ca = a.get_char(i);
        let cb = b.get_char(i);
        if ca != cb {
            proof {
                assert(a@.skip(i as int)[0] == ca);
                assert(b@.skip(i as int)[0] == cb);
            }
            return ca < cb;
        }
        i += 1;
    }
}

/// `r` lists the word set `ws`: strictly sorted, and holding exactly the
/// members of `ws`.
pub open spec fn sorted_listing(r: Seq<Seq<char>>, ws: Set<Seq<char>>) -> bool {
    &&& forall|i: int, j: int| #![trigger r[i], r[j]] 0 <= i < j < r.len() ==> lex_lt(r[i], r[j])
    &&& forall|w: Seq<char>| #[trigger] r.contains(w) <==> ws.contains(w)
}

/// A word set has at most one sorted listing: any two listings of the same
/// set are the same sequence, whatever order they were discovered in. Run
/// twice, or run with and without a cache, a search that lists the same word
/// set hands back identical output.
pub proof fn lemma_sorted_listing_unique(ws: Set<Seq<char>>, r1: Seq<Seq<char>>, r2: Seq<Seq<char>>)
    requires
        sorted_listing(r1, ws),
        sorted_listing(r2, ws),
    ensures
        r1 == r2,
    decreases r1.len(),
{
    if r1.len() == 0 {
        if r2.len() > 0 {
            assert(r2.contains(r2[0]));
            assert(r1.contains(r2[0]));
            assert(false);
        }
        assert(r1 =~= r2);
    } else {
        assert(r1.contains(r1[0]));
        assert(r2.contains(r1[0]));
        let j = choose|j: int| 0 <= j < r2.len() && r2[j] == r1[0];
        assert(r2.len() > 0);
        assert(r2.contains(r2[0]));
        assert(r1.contains(r2[0]));
        let i = choose|i: int| 0 <= i < r1.len() && r1[i] == r2[0];
        if j > 0 && i > 0 {
            assert(lex_lt(r2[0], r2[j]));
            assert(lex_lt(r1[0], r1[i]));
            lemma_lex_antisym(r1[0], r2[0]);
            assert(false);
        }
        assert(r1[0] == r2[0]);
        let head = r1[0];
        let t1 = r1.drop_first();
        let t2 = r2.drop_first();
        assert forall|w: Seq<char>| #[trigger] t1.contains(w) implies ws.remove(head).contains(
            w,
        ) by {
            let k = choose|k: int| 0 <= k < t1.len() && t1[k] == w;
            assert(r1[k + 1] == w);
            assert(r1.contains(w));
            assert(lex_lt(r1[0], r1[k + 1]));
        }
        assert forall|w: Seq<char>| ws.remove(head).contains(w) implies #[trigger] t1.contains(
            w,
        ) by {
            assert(r1.contains(w));
            let k = choose|k: int| 0 <= k < r1.len() && r1[k] == w;
            assert(k != 0);
            assert(t1[k - 1] == w);
        }
        assert forall|w: Seq<char>| #[trigger] t2.contains(w) implies ws.remove(head).contains(
            w,
        ) by {
            let k = choose|k: int| 0 <= k < t2.len() && t2[k] == w;
            assert(r2[k + 1] == w);
            assert(r2.contains(w));
            assert(lex_lt(r2[0], r2[k + 1]));
        }
        assert forall|w: Seq<char>| ws.remove(head).contains(w) implies #[trigger] t2.contains(
            w,
        ) by {
            assert(r2.contains(w));
            let k = choose|k: int| 0 <= k < r2.len() && r2[k] == w;
            assert(k != 0);
            assert(t2[k - 1] == w);
        }
        lemma_sorted_listing_unique(ws.remove(head), t1, t2);
        assert(r1.len() == r2.len());
        assert forall|k: int| 0 <= k < r1.len() implies r1[k] == r2[k] by {
            if k > 0 {
                assert(r1[k] == t1[k - 1]);
                assert(r2[k] == t2[k - 1]);
            }
        }
        assert(r1 =~= r2);
    }
}

} // verus!
