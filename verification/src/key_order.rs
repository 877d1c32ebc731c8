//! The order of user keys: lexicographic over unsigned bytes.

use vstd::prelude::*;

verus! {

/// `a` and `b` hold the same bytes at every index below `n`.
pub open spec fn agree_below(a: Seq<u8>, b: Seq<u8>, n: int) -> bool {
    forall|k: int| 0 <= k < n ==> a[k] == b[k]
}

/// `n` is a place that shows `a` to come strictly before `b`: the two agree
/// below `n`, and at `n` either `a` ends while `b` goes on, or `a` holds the
/// smaller byte.
pub open spec fn lt_at(a: Seq<u8>, b: Seq<u8>, n: int) -> bool {
    &&& 0 <= n <= a.len()
    &&& n < b.len()
    &&& agree_below(a, b, n)
    &&& (n < a.len() ==> a[n] < b[n])
}

/// `a` comes strictly before `b` in lexicographic byte order.
pub open spec fn key_lt(a: Seq<u8>, b: Seq<u8>) -> bool {
    exists|n: int| lt_at(a, b, n)
}

/// `a` comes before `b`, or equals it.
pub open spec fn key_le(a: Seq<u8>, b: Seq<u8>) -> bool {
    a == b || key_lt(a, b)
}

/// The length of the longest common prefix of `a` and `b`.
pub open spec fn common_prefix_len(a: Seq<u8>, b: Seq<u8>) -> nat
    decreases a.len(),
{
    if a.len() == 0 || b.len() == 0 || a[0] != b[0] {
        0
    } else {
        1 + common_prefix_len(a.skip(1), b.skip(1))
    }
}

/// What `common_prefix_len` is, said without recursion: the first index at
/// which the two keys stop agreeing.
pub proof fn lemma_common_prefix_len(a: Seq<u8>, b: Seq<u8>)
    ensures
        common_prefix_len(a, b) <= a.len(),
        common_prefix_len(a, b) <= b.len(),
        agree_below(a, b, common_prefix_len(a, b) as int),
        common_prefix_len(a, b) < a.len() && common_prefix_len(a, b) < b.len() ==> a[common_prefix_len(
            a,
            b,
        ) as int] != b[common_prefix_len(a, b) as int],
    decreases a.len(),
{
    if a.len() == 0 || b.len() == 0 || a[0] != b[0] {
    } else {
        let a1 = a.skip(1);
        let b1 = b.skip(1);
        lemma_common_prefix_len(a1, b1);
        let n = common_prefix_len(a1, b1) as int;
        assert forall|k: int| 0 <= k < n + 1 implies a[k] == b[k] by {
            if k > 0 {
                assert(a1[k - 1] == a[k]);
                assert(b1[k - 1] == b[k]);
            }
        }
        if n + 1 < a.len() && n + 1 < b.len() {
            assert(a1[n] == a[n + 1]);
            assert(b1[n] == b[n + 1]);
        }
    }
}

/// Any index with the defining property is the common prefix length.
pub proof fn lemma_common_prefix_unique(a: Seq<u8>, b: Seq<u8>, n: int)
    requires
        0 <= n <= a.len(),
        n <= b.len(),
        agree_below(a, b, n),
        n < a.len() && n < b.len() ==> a[n] != b[n],
    ensures
        common_prefix_len(a, b) == n,
{
    lemma_common_prefix_len(a, b);
    let m = common_prefix_len(a, b) as int;
    if m < n {
        assert(a[m] == b[m]);
    } else if n < m {
        assert(a[n] == b[n]);
    }
}

/// No key comes before itself.
pub proof fn lemma_key_lt_irreflexive(a: Seq<u8>)
    ensures
        !key_lt(a, a),
{
    if key_lt(a, a) {
        let n = choose|n: int| lt_at(a, a, n);
        assert(lt_at(a, a, n));
    }
}

/// The order is transitive.
pub proof fn lemma_key_lt_transitive(a: Seq<u8>, b: Seq<u8>, c: Seq<u8>)
    requires
        key_lt(a, b),
        key_lt(b, c),
    ensures
        key_lt(a, c),
{
    let n = choose|n: int| lt_at(a, b, n);
    let m = choose|m: int| lt_at(b, c, m);
    let k = if n <= m { n } else { m };
    assert(lt_at(a, c, k));
}

/// Of two different keys one comes before the other.
pub proof fn lemma_key_lt_total(a: Seq<u8>, b: Seq<u8>)
    ensures
        a == b || key_lt(a, b) || key_lt(b, a),
{
    lemma_common_prefix_len(a, b);
    let n = common_prefix_len(a, b) as int;
    if n == a.len() && n == b.len() {
        assert(a =~= b);
    } else if n == a.len() {
        assert(lt_at(a, b, n));
    } else if n == b.len() {
        assert(agree_below(b, a, n));
        assert(lt_at(b, a, n));
    } else if a[n] < b[n] {
        assert(lt_at(a, b, n));
    } else {
        assert(agree_below(b, a, n));
        assert(lt_at(b, a, n));
    }
}

/// Two keys are never each before the other.
pub proof fn lemma_key_lt_asymmetric(a: Seq<u8>, b: Seq<u8>)
    requires
        key_lt(a, b),
    ensures
        !key_lt(b, a),
        a != b,
{
    if key_lt(b, a) {
        lemma_key_lt_transitive(a, b, a);
    }
    lemma_key_lt_irreflexive(a);
}

/// `<=` followed by `<` gives `<`.
pub proof fn lemma_key_le_lt(a: Seq<u8>, b: Seq<u8>, c: Seq<u8>)
    requires
        key_le(a, b),
        key_lt(b, c),
    ensures
        key_lt(a, c),
{
    if a != b {
        lemma_key_lt_transitive(a, b, c);
    }
}

/// `<` followed by `<=` gives `<`.
pub proof fn lemma_key_lt_le(a: Seq<u8>, b: Seq<u8>, c: Seq<u8>)
    requires
        key_lt(a, b),
        key_le(b, c),
    ensures
        key_lt(a, c),
{
    if b != c {
        lemma_key_lt_transitive(a, b, c);
    }
}

/// A key is not below another exactly when the other is below it or equal.
pub proof fn lemma_key_not_lt(a: Seq<u8>, b: Seq<u8>)
    ensures
        !key_lt(a, b) <==> key_le(b, a),
{
    lemma_key_lt_total(a, b);
    lemma_key_lt_irreflexive(a);
    if key_lt(a, b) {
        lemma_key_lt_asymmetric(a, b);
    }
}

/// Length of the longest common prefix of two keys.
pub fn shared_prefix_len(a: &[u8], b: &[u8]) -> (n: usize)
    ensures
        n == common_prefix_len(a@, b@),
{
    let min_len = if a.len() < b.len() { a.len() } else { b.len() };
    let mut i: usize = 0;
    while i < min_len
        invariant
            i <= min_len,
            min_len <= a@.len(),
            min_len <= b@.len(),
            min_len == a@.len() || min_len == b@.len(),
            agree_below(a@, b@, i as int),
        decreases min_len - i,
    {
        if a[i] != b[i] {
            proof {
                lemma_common_prefix_unique(a@, b@, i as int);
            }
            return i;
        }
        i += 1;
    }
    proof {
        lemma_common_prefix_unique(a@, b@, i as int);
    }
    i
}

/// Whether `a` comes strictly before `b`.
pub fn key_less(a: &[u8], b: &[u8]) -> (less: bool)
    ensures
        less == key_lt(a@, b@),
{
    let n = shared_prefix_len(a, b);
    proof {
        lemma_common_prefix_len(a@, b@);
        lemma_key_lt_total(a@, b@);
    }
    if n == b.len() {
        proof {
            // b is a prefix of a: a is not below b
            if n == a@.len() {
                assert(a@ =~= b@);
                lemma_key_lt_irreflexive(a@);
            } else {
                assert(agree_below(b@, a@, n as int));
                assert(lt_at(b@, a@, n as int));
                lemma_key_lt_asymmetric(b@, a@);
            }
        }
        false
    } else if n == a.len() {
        proof {
            assert(lt_at(a@, b@, n as int));
        }
        true
    } else if a[n] < b[n] {
        proof {
            assert(lt_at(a@, b@, n as int));
        }
        true
    } else {
        proof {
            assert(agree_below(b@, a@, n as int));
            assert(lt_at(b@, a@, n as int));
            lemma_key_lt_asymmetric(b@, a@);
        }
        false
    }
}

/// Whether `a` comes before `b` or equals it.
pub fn key_less_or_equal(a: &[u8], b: &[u8]) -> (le: bool)
    ensures
        le == key_le(a@, b@),
{
    proof {
        lemma_key_not_lt(b@, a@);
    }
    !key_less(b, a)
}

} // verus!
