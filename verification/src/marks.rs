//! The indices at which something holds, in ascending order: the shape
//! shared by start codes in bytes, pictures in NAL units and temporal
//! units in OBUs.

use vstd::prelude::*;

verus! {

/// The indices below `n` at which `f` holds, ascending.
pub open spec fn marks(f: spec_fn(int) -> bool, n: int) -> Seq<int>
    decreases n,
{
    if n <= 0 {
        Seq::empty()
    } else if f(n - 1) {
        marks(f, n - 1).push(n - 1)
    } else {
        marks(f, n - 1)
    }
}

/// Every index moved up by `d`.
pub open spec fn moved(s: Seq<int>, d: int) -> Seq<int> {
    Seq::new(s.len(), |i: int| s[i] + d)
}

/// A list of offsets as the numbers they are.
pub open spec fn as_ints(s: Seq<usize>) -> Seq<int> {
    Seq::new(s.len(), |i: int| s[i] as int)
}

/// The mark behind mark `k`, or `n` when there is none.
pub open spec fn next_of(list: Seq<int>, k: int, n: int) -> int {
    if k + 1 < list.len() {
        list[k + 1]
    } else {
        n
    }
}

/// The marks are in range, ascend, and are exactly where `f` holds.
pub proof fn lemma_marks(f: spec_fn(int) -> bool, n: int)
    ensures
        forall|i: int|
            0 <= i < marks(f, n).len() ==> 0 <= #[trigger] marks(f, n)[i] < n && f(marks(f, n)[i]),
        forall|i: int, j: int|
            0 <= i < j < marks(f, n).len() ==> marks(f, n)[i] < marks(f, n)[j],
        forall|p: int| 0 <= p < n && #[trigger] f(p) ==> marks(f, n).contains(p),
        marks(f, n).len() <= if n > 0 {
            n
        } else {
            0
        },
    decreases n,
{
    if n > 0 {
        lemma_marks(f, n - 1);
        let before = marks(f, n - 1);
        let all = marks(f, n);
        assert forall|p: int| 0 <= p < n && #[trigger] f(p) implies all.contains(p) by {
            if p == n - 1 {
                assert(all[all.len() - 1] == p);
            } else {
                let i = choose|i: int| 0 <= i < before.len() && before[i] == p;
                assert(all[i] == p);
            }
        }
    }
}

/// What holds below `d + n` is what holds below `d`, and then what holds
/// from `d` on.
pub proof fn lemma_marks_split(
    f: spec_fn(int) -> bool,
    d: int,
    g: spec_fn(int) -> bool,
    n: int,
)
    requires
        d >= 0,
        n >= 0,
        forall|i: int| 0 <= i < n ==> #[trigger] g(i) == f(d + i),
    ensures
        marks(f, d + n) == marks(f, d) + moved(marks(g, n), d),
    decreases n,
{
    if n == 0 {
        assert(marks(f, d) + moved(marks(g, 0), d) =~= marks(f, d));
    } else {
        lemma_marks_split(f, d, g, n - 1);
        assert(g(n - 1) == f(d + n - 1));
        assert(marks(f, d + n) =~= marks(f, d) + moved(marks(g, n), d));
    }
}

/// Two tests that agree below `n` mark the same indices.
pub proof fn lemma_marks_agree(f: spec_fn(int) -> bool, g: spec_fn(int) -> bool, n: int)
    requires
        forall|i: int| 0 <= i < n ==> #[trigger] f(i) == g(i),
    ensures
        marks(f, n) == marks(g, n),
    decreases n,
{
    if n > 0 {
        lemma_marks_agree(f, g, n - 1);
        assert(f(n - 1) == g(n - 1));
    }
}

} // verus!
