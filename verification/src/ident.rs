//! The scoped-identity rule for identifier names.
//!
//! A name may carry a scope suffix, written `base#scope`. Two names match when
//! both carry a suffix and are identical, or, when at least one side has no
//! suffix, when their base parts agree. An unscoped request therefore matches
//! any internally scoped definition of the same base name, while two
//! differently scoped internal identifiers never alias each other.

use vstd::prelude::*;

verus! {

/// How many `#` characters a name holds.
pub open spec fn scope_mark_count(s: Seq<char>) -> nat
    decreases s.len(),
{
    if s.len() == 0 {
        0
    } else {
        scope_mark_count(s.drop_last()) + if s.last() == '#' {
            1nat
        } else {
            0nat
        }
    }
}

/// Length of the prefix of `s` before its first `#`; the whole length when
/// `s` holds no `#`.
pub open spec fn base_end(s: Seq<char>) -> int
    decreases s.len(),
{
    if s.len() == 0 {
        0
    } else if s[0] == '#' {
        0
    } else {
        1 + base_end(s.subrange(1, s.len() as int))
    }
}

/// The part of a name before its first `#`.
pub open spec fn base_name(s: Seq<char>) -> Seq<char> {
    s.take(base_end(s))
}

/// A name carries a scope suffix exactly when it holds a single `#`.
pub open spec fn has_scope_suffix(s: Seq<char>) -> bool {
    scope_mark_count(s) == 1
}

/// The scoped-identity rule. When both sides carry a scope suffix the whole
/// names (base and suffix alike) must be identical; otherwise only the base
/// parts must agree.
pub open spec fn ident_matches(a: Seq<char>, b: Seq<char>) -> bool {
    if has_scope_suffix(a) && has_scope_suffix(b) {
        a == b
    } else {
        base_name(a) == base_name(b)
    }
}

proof fn lemma_base_end_bounds(s: Seq<char>)
    ensures
        0 <= base_end(s) <= s.len(),
        base_end(s) < s.len() ==> s[base_end(s)] == '#',
        forall|j: int| 0 <= j < base_end(s) ==> s[j] != '#',
    decreases s.len(),
{
    if s.len() == 0 {
    } else if s[0] == '#' {
    } else {
        let tail = s.subrange(1, s.len() as int);
        lemma_base_end_bounds(tail);
        assert forall|j: int| 0 <= j < base_end(s) implies s[j] != '#' by {
            if j > 0 {
                assert(tail[j - 1] == s[j]);
            }
        }
    }
}

/// `base_end` is the unique cut that sits on the first `#` (or at the end).
proof fn lemma_base_end_unique(s: Seq<char>, k: int)
    requires
        0 <= k <= s.len(),
        k < s.len() ==> s[k] == '#',
        forall|j: int| 0 <= j < k ==> s[j] != '#',
    ensures
        base_end(s) == k,
    decreases s.len(),
{
    if s.len() == 0 {
    } else if s[0] == '#' {
        assert(k == 0);
    } else {
        assert(k > 0) by {
            if k == 0 {
                assert(s[0] == '#');
            }
        }
        let tail = s.subrange(1, s.len() as int);
        assert forall|j: int| 0 <= j < k - 1 implies tail[j] != '#' by {
            assert(tail[j] == s[j + 1]);
        }
        assert(k - 1 < tail.len() ==> tail[k - 1] == '#') by {
            if k - 1 < tail.len() {
                assert(tail[k - 1] == s[k]);
            }
        }
        lemma_base_end_unique(tail, k - 1);
    }
}

/// Walks a name once and reports where its base part ends and how many `#`
/// characters it holds.
fn scan_name(s: &str) -> (r: (usize, usize))
    ensures
        r.0 == base_end(s@),
        r.1 == scope_mark_count(s@),
{
    let n = s.unicode_len();
    let mut i: usize = 0;
    let mut count: usize = 0;
    let mut first: usize = n;
    let mut found = false;
    while i < n
        invariant
            n == s@.len(),
            0 <= i <= n,
            count <= i,
            count == scope_mark_count(s@.take(i as int)),
            found ==> first < i && s@[first as int] == '#' && (forall|j: int|
                0 <= j < first ==> s@[j] != '#'),
            !found ==> first == n && (forall|j: int| 0 <= j < i ==> s@[j] != '#'),
        decreases n - i,
    {
        let c = s.get_char(i);
        proof {
            assert(s@.take(i as int + 1).drop_last() =~= s@.take(i as int));
            assert(s@.take(i as int + 1).last() == s@[i as int]);
        }
        if c == '#' {
            count = count + 1;
            if !found {
                found = true;
                first = i;
            }
        }
        i = i + 1;
    }
    proof {
        assert(s@.take(n as int) =~= s@);
        if found {
            lemma_base_end_unique(s@, first as int);
        } else {
            lemma_base_end_unique(s@, n as int);
        }
    }
    (first, count)
}

/// Compares the prefixes `a[..base_a]` and `b[..base_b]` character by character.
fn base_names_equal(a: &str, b: &str, base_a: usize, base_b: usize) -> (r: bool)
    requires
        base_a <= a@.len(),
        base_b <= b@.len(),
    ensures
        r == (a@.take(base_a as int) == b@.take(base_b as int)),
{
    if base_a != base_b {
        proof {
            assert(a@.take(base_a as int).len() != b@.take(base_b as int).len());
        }
        false
    } else {
        let mut j: usize = 0;
        while j < base_a
            invariant
                base_a == base_b,
                base_a <= a@.len(),
                base_b <= b@.len(),
                0 <= j <= base_a,
                forall|t: int| 0 <= t < j ==> a@[t] == b@[t],
            decreases base_a - j,
        {
            if a.get_char(j) != b.get_char(j) {
                proof {
                    assert(a@.take(base_a as int)[j as int] != b@.take(base_b as int)[j as int]);
                }
                return false;
            }
            j = j + 1;
        }
        proof {
            assert(a@.take(base_a as int) =~= b@.take(base_b as int));
        }
        true
    }
}

/// Decides the scoped-identity rule for two names.
pub fn is_ident_equal(ident1: &String, ident2: &String) -> (r: bool)
    ensures
        r == ident_matches(ident1@, ident2@),
{
    let a = ident1.as_str();
    let b = ident2.as_str();
    let (base_a, count_a) = scan_name(a);
    let (base_b, count_b) = scan_name(b);
    if count_a == 1 && count_b == 1 {
        ident1.eq(ident2)
    } else {
        proof {
            lemma_base_end_bounds(a@);
            lemma_base_end_bounds(b@);
        }
        base_names_equal(a, b, base_a, base_b)
    }
}

} // verus!
