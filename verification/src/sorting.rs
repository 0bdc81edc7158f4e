//! Ascending sort for port lists, with its ordering laws.

use vstd::prelude::*;
use vstd::multiset::Multiset;
use vstd::seq_lib::group_to_multiset_ensures;

verus! {

/// The sequence is in ascending order (duplicates allowed).
pub open spec fn sorted(s: Seq<u16>) -> bool {
    forall|i: int, j: int| 0 <= i < j < s.len() ==> s[i] <= s[j]
}

/// Sorts `v` ascending, keeping exactly the same elements (with
/// multiplicity).
pub fn sort_vec(v: &mut Vec<u16>)
    ensures
        sorted(final(v)@),
        final(v)@.to_multiset() == old(v)@.to_multiset(),
{
    proof {
        broadcast use group_to_multiset_ensures;
    }
    let mut out: Vec<u16> = Vec::new();
    while v.len() > 0
        invariant
            sorted(out@),
            out@.to_multiset().add(v@.to_multiset()) == old(v)@.to_multiset(),
            forall|a: int, b: int|
                0 <= a < out@.len() && 0 <= b < v@.len() ==> out@[a] <= v@[b],
        decreases v@.len(),
    {
        proof {
            broadcast use group_to_multiset_ensures;
        }
        let mut m: usize = 0;
        let mut j: usize = 1;
        while j < v.len()
            invariant
                m < j || (j == 1 && m == 0),
                m < v@.len(),
                j <= v@.len(),
                forall|k: int| 0 <= k < j && k < v@.len() ==> v@[m as int] <= v@[k],
            decreases v@.len() - j,
        {
            if v[j] < v[m] {
                m = j;
            }
            j = j + 1;
        }
        let ghost prev = v@;
        let ghost prev_out = out@;
        let x = v.remove(m);
        out.push(x);
        proof {
            assert(prev.contains(x)) by {
                assert(prev[m as int] == x);
            }
            assert(out@.to_multiset().add(v@.to_multiset()) =~= prev_out.to_multiset().add(
                prev.to_multiset()));
            assert forall|a: int, b: int|
                0 <= a < out@.len() && 0 <= b < v@.len() implies out@[a] <= v@[b] by {
                assert(v@ == prev.remove(m as int));
                if b < m {
                    assert(v@[b] == prev[b]);
                } else {
                    assert(v@[b] == prev[b + 1]);
                }
                if a < prev_out.len() {
                    assert(out@[a] == prev_out[a]);
                } else {
                    assert(out@[a] == x);
                }
            }
        }
    }
    proof {
        assert(v@.to_multiset() =~= Multiset::empty()) by {
            broadcast use group_to_multiset_ensures;
        }
        assert(out@.to_multiset().add(Multiset::empty()) =~= out@.to_multiset());
    }
    *v = out;
}

/// Two ascending sequences with the same elements are identical: sorting a
/// sorted sequence is a no-op.
pub proof fn lemma_sorted_unique(a: Seq<u16>, b: Seq<u16>)
    requires
        sorted(a),
        sorted(b),
        a.to_multiset() == b.to_multiset(),
    ensures
        a == b,
    decreases a.len(),
{
    broadcast use group_to_multiset_ensures;
    if a.len() == 0 {
        assert(b.len() == b.to_multiset().len());
        assert(a =~= b);
    } else {
        assert(b.len() == b.to_multiset().len());
        assert(a.contains(a[0])) by {
            assert(a[0] == a[0]);
        }
        assert(b.contains(b[0])) by {
            assert(b[0] == b[0]);
        }
        assert(b.to_multiset().count(a[0]) > 0);
        assert(b.contains(a[0]));
        assert(a.to_multiset().count(b[0]) > 0);
        assert(a.contains(b[0]));
        let bi = choose|i: int| 0 <= i < b.len() && b[i] == a[0];
        let ai = choose|i: int| 0 <= i < a.len() && a[i] == b[0];
        assert(b[0] <= b[bi]);
        assert(a[0] <= a[ai]);
        assert(a[0] == b[0]);
        let at = a.remove(0);
        let bt = b.remove(0);
        assert(at.to_multiset() =~= bt.to_multiset()) by {
            assert(at.to_multiset() == a.to_multiset().remove(a[0]));
            assert(bt.to_multiset() == b.to_multiset().remove(b[0]));
        }
        assert(sorted(at)) by {
            assert forall|i: int, j: int| 0 <= i < j < at.len() implies at[i] <= at[j] by {
                assert(at[i] == a[i + 1]);
                assert(at[j] == a[j + 1]);
            }
        }
        assert(sorted(bt)) by {
            assert forall|i: int, j: int| 0 <= i < j < bt.len() implies bt[i] <= bt[j] by {
                assert(bt[i] == b[i + 1]);
                assert(bt[j] == b[j + 1]);
            }
        }
        lemma_sorted_unique(at, bt);
        assert(a =~= b) by {
            assert forall|i: int| 0 <= i < a.len() implies a[i] == b[i] by {
                if i > 0 {
                    assert(at[i - 1] == a[i]);
                    assert(bt[i - 1] == b[i]);
                }
            }
        }
    }
}

} // verus!
