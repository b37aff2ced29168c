//! Bookkeeping for runtime-module identifiers.
//!
//! Runtime modules are told apart from ordinary script modules by the marker
//! `.farm-runtime` at the end of their identifiers. The loading pipeline
//! appends the marker when it forwards a resolved id and removes every
//! occurrence when it needs the underlying source id back.

use vstd::prelude::*;

verus! {

/// Character length of the runtime marker.
pub open spec fn marker_len() -> int {
    13
}

/// The marker appended to runtime-module identifiers.
pub open spec fn runtime_marker() -> Seq<char> {
    ".farm-runtime"@
}

proof fn lemma_marker_len()
    ensures
        runtime_marker().len() == marker_len(),
{
    reveal_strlit(".farm-runtime");
}

/// `s` names a runtime module: it ends with the marker.
pub open spec fn has_runtime_suffix(s: Seq<char>) -> bool {
    s.len() >= marker_len() && s.subrange(s.len() - marker_len(), s.len() as int)
        == runtime_marker()
}

/// `s` with every occurrence of the marker removed, scanning left to right.
pub open spec fn without_runtime_marks(s: Seq<char>) -> Seq<char>
    decreases s.len(),
{
    if s.len() == 0 {
        Seq::empty()
    } else if s.len() >= marker_len() && s.take(marker_len()) == runtime_marker() {
        without_runtime_marks(s.skip(marker_len()))
    } else {
        seq![s[0]] + without_runtime_marks(s.skip(1))
    }
}

/// Decides whether the marker occupies positions `[i, i + 13)` of `id`.
fn marker_at(id: &str, i: usize) -> (r: bool)
    requires
        i + marker_len() <= id@.len(),
        id@.len() <= usize::MAX,
    ensures
        r == (id@.subrange(i as int, i + marker_len()) == runtime_marker()),
{
    let marker = ".farm-runtime";
    proof {
        reveal_strlit(".farm-runtime");
    }
    let mut j: usize = 0;
    while j < 13
        invariant
            0 <= j <= 13,
            i + 13 <= id@.len(),
            id@.len() <= usize::MAX,
            marker@ == runtime_marker(),
            marker@.len() == 13,
            forall|x: int| 0 <= x < j ==> id@[i + x] == runtime_marker()[x],
        decreases 13 - j,
    {
        if id.get_char(i + j) != marker.get_char(j) {
            proof {
                assert(id@.subrange(i as int, i + 13)[j as int] != runtime_marker()[j as int]);
            }
            return false;
        }
        j = j + 1;
    }
    proof {
        assert(id@.subrange(i as int, i + 13) =~= runtime_marker());
    }
    true
}

/// Whether an identifier names a runtime module.
pub fn is_runtime_module_id(id: &str) -> (r: bool)
    ensures
        r == has_runtime_suffix(id@),
{
    proof {
        lemma_marker_len();
    }
    let n = id.unicode_len();
    if n < 13 {
        return false;
    }
    marker_at(id, n - 13)
}

/// Appends the runtime marker to an identifier.
pub fn append_runtime_suffix(id: &str) -> (r: String)
    ensures
        r@ == id@ + runtime_marker(),
{
    let mut out = id.to_owned();
    out.append(".farm-runtime");
    out
}

/// Removes every occurrence of the runtime marker from an identifier, as the
/// loader does to recover the underlying source id.
pub fn strip_runtime_suffix(id: &str) -> (r: String)
    ensures
        r@ == without_runtime_marks(id@),
{
    proof {
        lemma_marker_len();
    }
    let n = id.unicode_len();
    let mut out = String::new();
    let mut i: usize = 0;
    proof {
        assert(id@.skip(0) =~= id@);
    }
    while i < n
        invariant
            0 <= i <= n,
            n == id@.len(),
            runtime_marker().len() == 13,
            out@ + without_runtime_marks(id@.skip(i as int)) == without_runtime_marks(id@),
        decreases n - i,
    {
        let ghost rest = id@.skip(i as int);
        if n - i >= 13 && marker_at(id, i) {
            proof {
                assert(rest.take(13) =~= id@.subrange(i as int, i + 13));
                assert(rest.skip(13) =~= id@.skip(i + 13));
            }
            i = i + 13;
        } else {
            let piece = id.substring_char(i, i + 1);
            out.append(piece);
            proof {
                assert(!(rest.len() >= 13 && rest.take(13) == runtime_marker())) by {
                    if rest.len() >= 13 {
                        assert(rest.take(13) =~= id@.subrange(i as int, i + 13));
                    }
                }
                assert(rest[0] == id@[i as int]);
                assert(rest.skip(1) =~= id@.skip(i + 1));
                assert(out@ + without_runtime_marks(id@.skip(i + 1)) =~= without_runtime_marks(
                    id@,
                ));
            }
            i = i + 1;
        }
    }
    proof {
        assert(id@.skip(n as int) =~= Seq::<char>::empty());
        assert(out@ =~= without_runtime_marks(id@));
    }
    out
}

} // verus!
