use vstd::prelude::*;

verus! {

/// Byte-lexicographic order, looking at positions from `i` on.
pub open spec fn lex_lt_from(a: Seq<u8>, b: Seq<u8>, i: nat) -> bool
    decreases a.len() - i,
{
    if i >= a.len() {
        i < b.len()
    } else if i >= b.len() {
        false
    } else if a[i as int] < b[i as int] {
        true
    } else if a[i as int] > b[i as int] {
        false
    } else {
        lex_lt_from(a, b, i + 1)
    }
}

/// `a` sorts strictly before `b` in byte-lexicographic order.
pub open spec fn lex_lt(a: Seq<u8>, b: Seq<u8>) -> bool {
    lex_lt_from(a, b, 0)
}

proof fn lemma_lex_irreflexive_from(a: Seq<u8>, i: nat)
    ensures
        !lex_lt_from(a, a, i),
    decreases a.len() - i,
{
    if i < a.len() {
        lemma_lex_irreflexive_from(a, i + 1);
    }
}

pub proof fn lemma_lex_irreflexive(a: Seq<u8>)
    ensures
        !lex_lt(a, a),
{
    lemma_lex_irreflexive_from(a, 0);
}

proof fn lemma_lex_transitive_from(a: Seq<u8>, b: Seq<u8>, c: Seq<u8>, i: nat)
    requires
        lex_lt_from(a, b, i),
        lex_lt_from(b, c, i),
    ensures
        lex_lt_from(a, c, i),
    decreases a.len() - i,
{
    if i < a.len() && i < b.len() && i < c.len() && a[i as int] == b[i as int] && b[i as int]
        == c[i as int] {
        lemma_lex_transitive_from(a, b, c, i + 1);
    }
}

pub proof fn lemma_lex_transitive(a: Seq<u8>, b: Seq<u8>, c: Seq<u8>)
    requires
        lex_lt(a, b),
        lex_lt(b, c),
    ensures
        lex_lt(a, c),
{
    lemma_lex_transitive_from(a, b, c, 0);
}

/// Compares two byte strings: `Less`, `Equal` or `Greater` as `a` sorts
/// before, equal to, or after `b`.
pub fn compare_bytes(a: &[u8], b: &[u8]) -> (r: core::cmp::Ordering)
    ensures
        (r == core::cmp::Ordering::Less) == lex_lt(a@, b@),
        (r == core::cmp::Ordering::Greater) == lex_lt(b@, a@),
        (r == core::cmp::Ordering::Equal) == (a@ == b@),
{
    let n = common_prefix_len(a, b);
    proof {
        lemma_lex_skip_equal(a@, b@, 0, n as nat);
        lemma_lex_irreflexive(a@);
    }
    if n < a.len() && n < b.len() {
        if a[n] < b[n] {
            core::cmp::Ordering::Less
        } else {
            core::cmp::Ordering::Greater
        }
    } else if a.len() < b.len() {
        core::cmp::Ordering::Less
    } else if a.len() > b.len() {
        core::cmp::Ordering::Greater
    } else {
        assert(a@ =~= b@);
        core::cmp::Ordering::Equal
    }
}

proof fn lemma_lex_skip_equal(a: Seq<u8>, b: Seq<u8>, j: nat, n: nat)
    requires
        j <= n <= a.len(),
        n <= b.len(),
        forall|k: int| 0 <= k < n ==> a[k] == b[k],
    ensures
        lex_lt_from(a, b, j) == lex_lt_from(a, b, n),
        lex_lt_from(b, a, j) == lex_lt_from(b, a, n),
    decreases n - j,
{
    if j < n {
        lemma_lex_skip_equal(a, b, j + 1, n);
    }
}

/// The length of the longest common prefix of `a` and `b`, counting from `i`.
pub open spec fn common_prefix_from(a: Seq<u8>, b: Seq<u8>, i: nat) -> nat
    decreases a.len() - i,
{
    if i < a.len() && i < b.len() && a[i as int] == b[i as int] {
        common_prefix_from(a, b, i + 1)
    } else {
        i
    }
}

/// The length of the longest common prefix of `a` and `b`.
pub open spec fn common_prefix(a: Seq<u8>, b: Seq<u8>) -> nat {
    common_prefix_from(a, b, 0)
}

proof fn lemma_common_prefix_from(a: Seq<u8>, b: Seq<u8>, j: nat, r: nat)
    requires
        j <= r <= a.len(),
        r <= b.len(),
        forall|k: int| 0 <= k < r ==> a[k] == b[k],
        r == a.len() || r == b.len() || a[r as int] != b[r as int],
    ensures
        common_prefix_from(a, b, j) == r,
    decreases r - j,
{
    if j < r {
        lemma_common_prefix_from(a, b, j + 1, r);
    }
}

proof fn lemma_common_prefix_from_props(a: Seq<u8>, b: Seq<u8>, j: nat)
    requires
        j <= a.len(),
        j <= b.len(),
        forall|k: int| 0 <= k < j ==> a[k] == b[k],
    ensures
        j <= common_prefix_from(a, b, j) <= a.len(),
        common_prefix_from(a, b, j) <= b.len(),
        forall|k: int| 0 <= k < common_prefix_from(a, b, j) ==> a[k] == b[k],
    decreases a.len() - j,
{
    if j < a.len() && j < b.len() && a[j as int] == b[j as int] {
        lemma_common_prefix_from_props(a, b, j + 1);
    }
}

/// The common prefix is no longer than either string, and both agree on it.
pub proof fn lemma_common_prefix(a: Seq<u8>, b: Seq<u8>)
    ensures
        common_prefix(a, b) <= a.len(),
        common_prefix(a, b) <= b.len(),
        a.take(common_prefix(a, b) as int) == b.take(common_prefix(a, b) as int),
{
    lemma_common_prefix_from_props(a, b, 0);
    assert(a.take(common_prefix(a, b) as int) =~= b.take(common_prefix(a, b) as int));
}

/// The length of the longest common prefix of `s1` and `s2`.
pub fn common_prefix_len(s1: &[u8], s2: &[u8]) -> (r: usize)
    ensures
        r <= s1.len(),
        r <= s2.len(),
        s1@.take(r as int) == s2@.take(r as int),
        forall|k: int| 0 <= k < r ==> s1@[k] == s2@[k],
        r == s1.len() || r == s2.len() || s1@[r as int] != s2@[r as int],
        r == common_prefix(s1@, s2@),
{
    let mut i: usize = 0;
    while i < s1.len() && i < s2.len() && s1[i] == s2[i]
        invariant
            i <= s1.len(),
            i <= s2.len(),
            forall|k: int| 0 <= k < i ==> s1@[k] == s2@[k],
        decreases s1.len() - i,
    {
        i = i + 1;
    }
    assert(s1@.take(i as int) =~= s2@.take(i as int));
    proof {
        lemma_common_prefix_from(s1@, s2@, 0, i as nat);
    }
    i
}

} // verus!
