//! Sorting of numbers.

use vstd::prelude::*;

verus! {

/// Numbers in ascending order.
pub open spec fn ordered(s: Seq<u64>) -> bool {
    forall|i: int, j: int| 0 <= i <= j < s.len() ==> s[i] <= s[j]
}

/// Two ordered sequences in one.
fn merged(a: &Vec<u64>, b: &Vec<u64>) -> (res: Vec<u64>)
    requires
        ordered(a@),
        ordered(b@),
    ensures
        ordered(res@),
        res@.to_multiset() == a@.to_multiset().add(b@.to_multiset()),
        res@.len() == a@.len() + b@.len(),
{
    let mut out: Vec<u64> = Vec::new();
    let mut i: usize = 0;
    let mut k: usize = 0;
    proof {
        assert(a@.take(0) =~= Seq::empty());
        assert(b@.take(0) =~= Seq::empty());
        a@.take(0).to_multiset_ensures();
        assert(out@.to_multiset() =~= a@.take(0).to_multiset().add(b@.take(0).to_multiset()));
    }
    while i < a.len() || k < b.len()
        invariant
            i <= a@.len(),
            k <= b@.len(),
            ordered(a@),
            ordered(b@),
            ordered(out@),
            out@.len() == i + k,
            forall|x: int| 0 <= x < out@.len() && i < a@.len() ==> out@[x] <= a@[i as int],
            forall|x: int| 0 <= x < out@.len() && k < b@.len() ==> out@[x] <= b@[k as int],
            out@.to_multiset() == a@.take(i as int).to_multiset().add(
                b@.take(k as int).to_multiset(),
            ),
        decreases a@.len() - i + b@.len() - k,
    {
        let ghost before = out@;
        if k >= b.len() || (i < a.len() && a[i] <= b[k]) {
            let x: u64 = a[i];
            out.push(x);
            proof {
                before.to_multiset_ensures();
                a@.take(i as int).to_multiset_ensures();
                assert(a@.take(i + 1) =~= a@.take(i as int).push(x));
                assert(out@.to_multiset() =~= a@.take(i + 1).to_multiset().add(
                    b@.take(k as int).to_multiset(),
                ));
            }
            i += 1;
        } else {
            let x: u64 = b[k];
            out.push(x);
            proof {
                before.to_multiset_ensures();
                b@.take(k as int).to_multiset_ensures();
                assert(b@.take(k + 1) =~= b@.take(k as int).push(x));
                assert(out@.to_multiset() =~= a@.take(i as int).to_multiset().add(
                    b@.take(k + 1).to_multiset(),
                ));
            }
            k += 1;
        }
    }
    proof {
        assert(a@.take(a@.len() as int) =~= a@);
        assert(b@.take(b@.len() as int) =~= b@);
    }
    out
}

fn part(v: &Vec<u64>, from: usize, to: usize) -> (res: Vec<u64>)
    requires
        from <= to <= v@.len(),
    ensures
        res@ == v@.subrange(from as int, to as int),
{
    let mut out: Vec<u64> = Vec::new();
    let mut i: usize = from;
    while i < to
        invariant
            from <= i <= to <= v@.len(),
            out@ == v@.subrange(from as int, i as int),
        decreases to - i,
    {
        out.push(v[i]);
        i += 1;
        assert(out@ =~= v@.subrange(from as int, i as int));
    }
    out
}

/// The numbers in ascending order.
pub fn sorted(v: &Vec<u64>) -> (res: Vec<u64>)
    ensures
        ordered(res@),
        res@.to_multiset() == v@.to_multiset(),
        res@.len() == v@.len(),
    decreases v@.len(),
{
    let n: usize = v.len();
    if n <= 1 {
        let res = part(v, 0, n);
        assert(res@ =~= v@);
        return res;
    }
    let m: usize = n / 2;
    let a = part(v, 0, m);
    let b = part(v, m, n);
    let x = sorted(&a);
    let y = sorted(&b);
    let res = merged(&x, &y);
    proof {
        assert(a@ + b@ =~= v@);
        vstd::seq_lib::lemma_multiset_commutative(a@, b@);
    }
    res
}

/// Sorting keeps which numbers there are.
pub proof fn lemma_sorted_members(a: Seq<u64>, b: Seq<u64>)
    requires
        a.to_multiset() == b.to_multiset(),
    ensures
        forall|x: u64| a.contains(x) == b.contains(x),
{
    a.to_multiset_ensures();
    b.to_multiset_ensures();
    assert forall|x: u64| a.contains(x) == b.contains(x) by {
        assert(a.contains(x) == (a.to_multiset().count(x) > 0));
        assert(b.contains(x) == (b.to_multiset().count(x) > 0));
    }
}

} // verus!
