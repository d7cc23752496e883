//! The first element of a sequence that fails a test.
use vstd::prelude::*;

verus! {

/// Some element of `s` fails `ok`.
pub open spec fn any_fails<T>(s: Seq<T>, ok: spec_fn(T) -> bool) -> bool {
    exists|i: int| 0 <= i < s.len() && !ok(#[trigger] s[i])
}

/// `i` is the position of the first element of `s` that fails `ok`.
pub open spec fn is_first_failing<T>(s: Seq<T>, ok: spec_fn(T) -> bool, i: int) -> bool {
    &&& 0 <= i < s.len()
    &&& !ok(s[i])
    &&& forall|j: int| 0 <= j < i ==> ok(#[trigger] s[j])
}

/// The position of the first element of `s` that fails `ok`.
pub open spec fn first_failing<T>(s: Seq<T>, ok: spec_fn(T) -> bool) -> int {
    choose|i: int| is_first_failing(s, ok, i)
}

/// The first failing position is the one a left-to-right scan stops at.
pub proof fn lemma_first_failing<T>(s: Seq<T>, ok: spec_fn(T) -> bool, i: int)
    requires
        is_first_failing(s, ok, i),
    ensures
        first_failing(s, ok) == i,
        any_fails(s, ok),
{
    let j = first_failing(s, ok);
    assert(is_first_failing(s, ok, j));
    if j < i {
        assert(ok(s[j]));
    }
    if i < j {
        assert(ok(s[i]));
    }
}

/// Two sequences of one length whose elements pass or fail their tests
/// alike, position by position, fail first at the same position.
pub proof fn lemma_first_failing_agree<T, U>(
    s1: Seq<T>,
    ok1: spec_fn(T) -> bool,
    s2: Seq<U>,
    ok2: spec_fn(U) -> bool,
)
    requires
        s1.len() == s2.len(),
        forall|i: int| 0 <= i < s1.len() ==> ok1(s1[i]) == ok2(s2[i]),
    ensures
        any_fails(s1, ok1) == any_fails(s2, ok2),
        any_fails(s1, ok1) ==> first_failing(s1, ok1) == first_failing(s2, ok2),
{
    if any_fails(s1, ok1) {
        let i = choose|i: int| 0 <= i < s1.len() && !ok1(#[trigger] s1[i]);
        assert(!ok2(s2[i]));
    }
    if any_fails(s2, ok2) {
        let i = choose|i: int| 0 <= i < s2.len() && !ok2(#[trigger] s2[i]);
        assert(!ok1(s1[i]));
    }
    if any_fails(s1, ok1) {
        let j = first_failing(s1, ok1);
        assert(is_first_failing(s1, ok1, j)) by {
            let i = choose|i: int| 0 <= i < s1.len() && !ok1(#[trigger] s1[i]);
            lemma_first_exists(s1, ok1, i);
        }
        assert(is_first_failing(s2, ok2, j)) by {
            assert forall|k: int| 0 <= k < j implies ok2(#[trigger] s2[k]) by {
                assert(ok1(s1[k]));
            }
        }
        lemma_first_failing(s2, ok2, j);
    }
}

/// When some element fails, a first one does.
pub proof fn lemma_first_exists<T>(s: Seq<T>, ok: spec_fn(T) -> bool, i: int)
    requires
        0 <= i < s.len(),
        !ok(s[i]),
    ensures
        is_first_failing(s, ok, first_failing(s, ok)),
    decreases i,
{
    if exists|j: int| 0 <= j < i && !ok(#[trigger] s[j]) {
        let j = choose|j: int| 0 <= j < i && !ok(#[trigger] s[j]);
        lemma_first_exists(s, ok, j);
    } else {
        assert(is_first_failing(s, ok, i));
    }
}

} // verus!
