//! Binary search over sorted hash lists, and turning a hash list into its
//! sorted list of distinct values.
use vstd::prelude::*;

verus! {

/// `s` is in non-decreasing order.
pub open spec fn is_sorted(s: Seq<u32>) -> bool {
    forall|i: int, j: int| 0 <= i <= j < s.len() ==> s[i] <= s[j]
}

/// `s` is in strictly increasing order (sorted, no value twice).
pub open spec fn is_strictly_increasing(s: Seq<u32>) -> bool {
    forall|i: int, j: int| 0 <= i < j < s.len() ==> s[i] < s[j]
}

/// The index at which a binary search for `x` between `lo` and `hi` stops:
/// it halves the range, going right when the middle value is less than `x`.
pub open spec fn search_point(arr: Seq<u32>, x: u32, lo: int, hi: int) -> int
    decreases hi - lo,
{
    if lo >= hi {
        lo
    } else {
        let mid = lo + (hi - lo) / 2;
        if arr[mid] < x {
            search_point(arr, x, mid + 1, hi)
        } else {
            search_point(arr, x, lo, mid)
        }
    }
}

/// What `bin_search(arr, x)` returns on any `arr`, sorted or not: the index at
/// which the binary search over the whole of `arr` stops, if `x` stands there.
/// On a sorted `arr` this is the least index holding `x`; on an unsorted one
/// it is what ties `bin_lookup` to `bin_search`.
pub open spec fn search_spec(arr: Seq<u32>, x: u32) -> Option<usize> {
    let p = search_point(arr, x, 0, arr.len() as int);
    if p < arr.len() && arr[p] == x {
        Some(p as usize)
    } else {
        None
    }
}

/// The first index of a sorted `arr` whose value is at least `x` (`arr.len()`
/// when there is none). On an unsorted `arr` it is the index at which the
/// binary search stops.
fn lower_bound(arr: &[u32], x: u32) -> (p: usize)
    ensures
        p <= arr.len(),
        p == search_point(arr@, x, 0, arr@.len() as int),
        is_sorted(arr@) ==> forall|j: int| 0 <= j < p ==> arr@[j] < x,
        is_sorted(arr@) ==> forall|j: int| p <= j < arr.len() ==> arr@[j] >= x,
{
    let mut lo: usize = 0;
    let mut hi: usize = arr.len();
    while lo < hi
        invariant
            lo <= hi <= arr.len(),
            search_point(arr@, x, lo as int, hi as int) == search_point(
                arr@,
                x,
                0,
                arr@.len() as int,
            ),
            is_sorted(arr@) ==> forall|j: int| 0 <= j < lo ==> arr@[j] < x,
            is_sorted(arr@) ==> forall|j: int| hi <= j < arr.len() ==> arr@[j] >= x,
        decreases hi - lo,
    {
        let mid = lo + (hi - lo) / 2;
        if arr[mid] < x {
            lo = mid + 1;
        } else {
            hi = mid;
        }
    }
    lo
}

/// What `bin_search(arr, elt)` may return: an index at which `elt` stands,
/// or `None`, which on a sorted `arr` means that `elt` does not occur.
pub open spec fn search_result(arr: Seq<u32>, elt: u32, r: Option<usize>) -> bool {
    match r {
        Some(i) => i < arr.len() && arr[i as int] == elt,
        None => is_sorted(arr) ==> !arr.contains(elt),
    }
}

/// What `bin_lookup(arr, elt)` may return: `true` only when `elt` occurs, and
/// on a sorted `arr` exactly then.
pub open spec fn lookup_result(arr: Seq<u32>, elt: u32, found: bool) -> bool {
    &&& found ==> arr.contains(elt)
    &&& is_sorted(arr) ==> (found == arr.contains(elt))
}

/// The least index at which `elt` stands in the sorted slice `arr`, or `None`
/// when it does not occur. Whatever `arr` holds, an index returned is one at
/// which `elt` stands.
pub fn bin_search(arr: &[u32], elt: u32) -> (r: Option<usize>)
    ensures
        search_result(arr@, elt, r),
        is_sorted(arr@) ==> (r is Some <==> arr@.contains(elt)),
        is_sorted(arr@) ==> (r matches Some(i) ==> forall|j: int| 0 <= j < i ==> arr@[j] < elt),
        r == search_spec(arr@, elt),
{
    let p = lower_bound(arr, elt);
    if p < arr.len() && arr[p] == elt {
        Some(p)
    } else {
        proof {
            if is_sorted(arr@) && arr@.contains(elt) {
                let j = choose|j: int| 0 <= j < arr@.len() && arr@[j] == elt;
                if j >= p {
                    assert(arr@[p as int] <= arr@[j]);
                }
            }
        }
        None
    }
}

/// Whether `elt` occurs in the sorted slice `arr`. Whatever `arr` holds,
/// `true` means that `elt` occurs in it.
pub fn bin_lookup(arr: &[u32], elt: u32) -> (found: bool)
    ensures
        found == search_spec(arr@, elt) is Some,
        lookup_result(arr@, elt, found),
{
    match bin_search(arr, elt) {
        Some(i) => {
            assert(arr@[i as int] == elt);
            true
        },
        None => false,
    }
}

proof fn lemma_push_to_set(t: Seq<u32>, x: u32)
    ensures
        t.push(x).to_set() == t.to_set().insert(x),
{
    assert forall|y: u32| #[trigger]
        t.push(x).to_set().contains(y) <==> t.to_set().insert(x).contains(y) by {
        assert(t.push(x).to_set().contains(y) == t.push(x).contains(y));
        assert(t.to_set().contains(y) == t.contains(y));
        if t.push(x).contains(y) {
            let j = choose|j: int| 0 <= j < t.push(x).len() && t.push(x)[j] == y;
            if j < t.len() {
                assert(t[j] == y);
            }
        }
        if t.contains(y) {
            let j = choose|j: int| 0 <= j < t.len() && t[j] == y;
            assert(t.push(x)[j] == y);
        }
        if y == x {
            assert(t.push(x)[t.len() as int] == y);
        }
    }
    assert(t.push(x).to_set() =~= t.to_set().insert(x));
}

/// Putting `x` at index `p` of a strictly increasing `before` whose values
/// below `p` are less than `x` and whose values from `p` on are greater keeps
/// it strictly increasing and adds `x` to its values.
proof fn lemma_insert_keeps_increasing(before: Seq<u32>, p: int, x: u32)
    requires
        0 <= p <= before.len(),
        is_strictly_increasing(before),
        forall|j: int| 0 <= j < p ==> before[j] < x,
        forall|j: int| p <= j < before.len() ==> before[j] >= x,
        p < before.len() ==> before[p] != x,
    ensures
        is_strictly_increasing(before.insert(p, x)),
        before.insert(p, x).to_set() == before.to_set().insert(x),
{
    let out = before.insert(p, x);
    assert forall|a: int, b: int| 0 <= a < b < out.len() implies out[a] < out[b] by {
        if b < p {
        } else if b == p {
            assert(before[a] < x);
        } else if a < p {
            assert(before[a] < x);
            assert(before[b - 1] >= x);
        } else if a == p {
            assert(before[p] >= x);
            if b - 1 > p {
                assert(before[p] < before[b - 1]);
            }
        } else {
            assert(before[a - 1] < before[b - 1]);
        }
    }
    assert forall|y: u32| out.contains(y) <==> (before.contains(y) || y == x) by {
        if out.contains(y) {
            let j = choose|j: int| 0 <= j < out.len() && out[j] == y;
            if j < p {
                assert(before[j] == y);
            } else if j > p {
                assert(before[j - 1] == y);
            }
        }
        if before.contains(y) {
            let j = choose|j: int| 0 <= j < before.len() && before[j] == y;
            if j < p {
                assert(out[j] == y);
            } else {
                assert(out[j + 1] == y);
            }
        }
        if y == x {
            assert(out[p] == y);
        }
    }
    assert(out.to_set() =~= before.to_set().insert(x));
}

/// On any slice, sorted or not, `bin_lookup` finds an element exactly when
/// `bin_search` returns an index for it; on a sorted slice that is exactly
/// when the element occurs.
pub proof fn lemma_lookup_agrees_with_search(arr: Seq<u32>, elt: u32, r: Option<usize>, found: bool)
    requires
        r == search_spec(arr, elt),
        found == search_spec(arr, elt) is Some,
        search_result(arr, elt, r),
    ensures
        found == r is Some,
        is_sorted(arr) ==> (found == arr.contains(elt)),
{
    if let Some(i) = r {
        assert(arr[i as int] == elt);
    }
}

/// A strictly increasing sequence is sorted.
proof fn lemma_strictly_increasing_sorted(s: Seq<u32>)
    requires
        is_strictly_increasing(s),
    ensures
        is_sorted(s),
{
    assert forall|i: int, j: int| 0 <= i <= j < s.len() implies s[i] <= s[j] by {
        if i < j {
            assert(s[i] < s[j]);
        }
    }
}

/// Sorts `tokens` and removes repeated values: afterwards they are strictly
/// increasing and hold the same values as before.
pub(crate) fn compact_tokens(tokens: &mut Vec<u32>)
    ensures
        is_strictly_increasing(final(tokens)@),
        final(tokens)@.to_set() == old(tokens)@.to_set(),
{
    let mut out: Vec<u32> = Vec::new();
    let mut i: usize = 0;
    assert(tokens@.take(0).to_set() =~= out@.to_set());
    while i < tokens.len()
        invariant
            i <= tokens.len(),
            is_strictly_increasing(out@),
            out@.to_set() == tokens@.take(i as int).to_set(),
        decreases tokens.len() - i,
    {
        let x = tokens[i];
        proof {
            lemma_strictly_increasing_sorted(out@);
        }
        let p = lower_bound(out.as_slice(), x);
        let ghost before = out@;
        assert(tokens@.take(i + 1) =~= tokens@.take(i as int).push(x));
        if p < out.len() && out[p] == x {
            assert(out@.to_set() =~= tokens@.take(i + 1).to_set()) by {
                assert(out@.contains(x)) by {
                    assert(out@[p as int] == x);
                }
            }
        } else {
            out.insert(p, x);
            proof {
                lemma_insert_keeps_increasing(before, p as int, x);
                lemma_push_to_set(tokens@.take(i as int), x);
            }
        }
        i = i + 1;
    }
    assert(tokens@.take(tokens@.len() as int) =~= tokens@);
    *tokens = out;
}

/// Two strictly increasing sequences that hold the same values are equal: the
/// sorted list of distinct values of a collection depends on its values alone.
pub proof fn lemma_strictly_increasing_unique(a: Seq<u32>, b: Seq<u32>)
    requires
        is_strictly_increasing(a),
        is_strictly_increasing(b),
        a.to_set() == b.to_set(),
    ensures
        a == b,
    decreases a.len(),
{
    if a.len() == 0 {
        if b.len() > 0 {
            assert(b.to_set().contains(b[0]));
        }
        assert(a =~= b);
    } else {
        assert(a.to_set().contains(a[0]));
        assert(b.len() > 0);
        assert(b.to_set().contains(b[0]));
        let i = choose|i: int| 0 <= i < a.len() && a[i] == b[0];
        let j = choose|j: int| 0 <= j < b.len() && b[j] == a[0];
        if i > 0 {
            assert(a[0] < a[i]);
        }
        if j > 0 {
            assert(b[0] < b[j]);
        }
        assert(a[0] == b[0]);
        let a1 = a.drop_first();
        let b1 = b.drop_first();
        assert forall|x: u32| a1.contains(x) implies b1.contains(x) by {
            let k = choose|k: int| 0 <= k < a1.len() && a1[k] == x;
            assert(a[k + 1] == x);
            assert(a.to_set().contains(x));
            let m = choose|m: int| 0 <= m < b.len() && b[m] == x;
            assert(a[0] < a[k + 1]);
            assert(m != 0);
            assert(b1[m - 1] == x);
        }
        assert forall|x: u32| b1.contains(x) implies a1.contains(x) by {
            let k = choose|k: int| 0 <= k < b1.len() && b1[k] == x;
            assert(b[k + 1] == x);
            assert(b.to_set().contains(x));
            let m = choose|m: int| 0 <= m < a.len() && a[m] == x;
            assert(b[0] < b[k + 1]);
            assert(m != 0);
            assert(a1[m - 1] == x);
        }
        assert(a1.to_set() =~= b1.to_set());
        lemma_strictly_increasing_unique(a1, b1);
        assert(a =~= seq![a[0]] + a1);
        assert(b =~= seq![b[0]] + b1);
    }
}

} // verus!
