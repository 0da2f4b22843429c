//! Small algorithmic showcases across complexity classes: triangular sums in
//! linear and constant time, binary search, merge sort, and the naive
//! exponential Fibonacci recursion.

use vstd::prelude::*;
use vstd::seq_lib::{group_to_multiset_ensures, lemma_multiset_commutative};
use vstd::slice::{slice_subrange, slice_to_vec};

verus! {

broadcast use group_to_multiset_ensures;

/// Sum of `0..=n`, taking `n` steps to arrive at the answer.
/// O(n)
pub fn linear_time(n: u128) -> (sum: u128)
    requires
        (n as int) * (n as int + 1) <= 2 * (u128::MAX as int),
    ensures
        sum == (n as int) * (n as int + 1) / 2,
{
    let mut sum: u128 = 0;
    let mut i: u128 = 0;
    while i <= n
        invariant
            i <= n + 1,
            (n as int) * (n as int + 1) <= 2 * (u128::MAX as int),
            2 * (sum as int) == (i as int) * (i as int - 1),
        decreases n - i + 1,
    {
        proof {
            assert((i as int) * (i as int + 1) <= (n as int) * (n as int + 1))
                by (nonlinear_arith)
                requires
                    0 <= i as int <= n as int,
            ;
            assert(2 * ((sum as int) + i as int) == (i as int) * (i as int + 1) && (i as int) * (
            i as int + 1) == (i as int + 1) * (i as int + 1 - 1)) by (nonlinear_arith)
                requires
                    2 * (sum as int) == (i as int) * (i as int - 1),
            ;
        }
        sum += i;
        i += 1;
    }
    proof {
        vstd::arithmetic::mul::lemma_mul_is_commutative(n as int + 1, n as int);
        lemma_triangle_halves(n as int, sum as int);
    }
    return sum;
}

/// The same sum in a fixed number of steps, by the closed formula.
/// O(1)
pub fn constant_time(n: u128) -> (sum: u128)
    requires
        (n as int) * (n as int + 1) <= u128::MAX,
    ensures
        sum == (n as int) * (n as int + 1) / 2,
{
    proof {
        assert(n as int + 1 <= u128::MAX) by (nonlinear_arith)
            requires
                (n as int) * (n as int + 1) <= u128::MAX,
                0 <= n as int,
        ;
    }
    let sum = n * (n + 1) / 2;
    return sum;
}

/// Twice the triangular sum determines it.
proof fn lemma_triangle_halves(n: int, sum: int)
    requires
        0 <= sum,
        2 * sum == n * (n + 1),
    ensures
        sum == n * (n + 1) / 2,
{
    vstd::arithmetic::div_mod::lemma_div_by_multiple(sum, 2);
    vstd::arithmetic::mul::lemma_mul_is_commutative(sum, 2);
}

/// The sequence is sorted in nondecreasing order.
pub open spec fn sorted(s: Seq<u32>) -> bool {
    forall|i: int, j: int| 0 <= i < j < s.len() ==> s[i] <= s[j]
}

/// O(log(n))
/// Binary search: whether `num` occurs in the sorted slice `arr`.
pub fn binary_search(arr: &[u32], num: u32) -> (found: bool)
    requires
        sorted(arr@),
    ensures
        found == arr@.contains(num),
    decreases arr@.len(),
{
    // Base case: if the array is empty, the number is not in it.
    if arr.len() == 0 {
        proof {
            assert(forall|i: int| 0 <= i < arr@.len() ==> arr@[i] != num);
        }
        return false;
    }

    let mid_index = arr.len() / 2;

    if arr[mid_index] == num {
        proof {
            assert(arr@[mid_index as int] == num);
        }
        return true;
    } else if arr[mid_index] > num {
        // Search in the left part of the array.
        let sub = slice_subrange(arr, 0, mid_index);
        let found = binary_search(sub, num);
        proof {
            if arr@.contains(num) {
                let i = choose|i: int| 0 <= i < arr@.len() && arr@[i] == num;
                assert(i < mid_index as int);
                assert(sub@[i] == num);
            }
            if sub@.contains(num) {
                let i = choose|i: int| 0 <= i < sub@.len() && sub@[i] == num;
                assert(arr@[i] == num);
            }
        }
        return found;
    } else {
        // Search in the right part of the array.
        // We use mid_index + 1 to avoid getting stuck on the same element.
        let sub = slice_subrange(arr, mid_index + 1, arr.len());
        let found = binary_search(sub, num);
        proof {
            if arr@.contains(num) {
                let i = choose|i: int| 0 <= i < arr@.len() && arr@[i] == num;
                assert(i > mid_index as int);
                assert(sub@[i - mid_index - 1] == num);
            }
            if sub@.contains(num) {
                let i = choose|i: int| 0 <= i < sub@.len() && sub@[i] == num;
                assert(arr@[i + mid_index + 1] == num);
            }
        }
        return found;
    }
}

/// O(nLog(n))
/// Mergesort: returns the elements of `arr` in nondecreasing order.
/// The input can be ordered or unordered.
pub fn merge_sort(arr: &[u32]) -> (res: Vec<u32>)
    ensures
        sorted(res@),
        res@.to_multiset() == arr@.to_multiset(),
    decreases arr@.len(),
{
    // A slice of fewer than two elements is already sorted.
    if arr.len() < 2 {
        let res = slice_to_vec(arr);
        return res;
    }
    // mark the mid index to follow a divide and conquer approach
    let mid_index = arr.len() / 2;
    // Take the left array from the beginning to the mid_index (exclusive)
    let left_arr = slice_subrange(arr, 0, mid_index);
    // Take the right array as well
    let right_arr = slice_subrange(arr, mid_index, arr.len());
    // pass in the merge helper function to run the merge algo
    let left_sorted = merge_sort(left_arr);
    let right_sorted = merge_sort(right_arr);
    let res = merge(&left_sorted, &right_sorted);
    proof {
        assert(arr@ == left_arr@ + right_arr@) by {
            assert(arr@ =~= arr@.subrange(0, mid_index as int) + arr@.subrange(
                mid_index as int,
                arr@.len() as int,
            ));
        }
        lemma_multiset_commutative(left_arr@, right_arr@);
    }
    res
}

/// Helper function for the mergesort function: merges two sorted slices.
fn merge(left_arr: &[u32], right_arr: &[u32]) -> (res: Vec<u32>)
    requires
        sorted(left_arr@),
        sorted(right_arr@),
    ensures
        sorted(res@),
        res@.to_multiset() == left_arr@.to_multiset().add(right_arr@.to_multiset()),
{
    let mut res_arr: Vec<u32> = Vec::new();
    let mut left_index: usize = 0;
    let mut right_index: usize = 0;

    proof {
        assert(left_arr@.subrange(0, 0) =~= Seq::<u32>::empty());
        assert(right_arr@.subrange(0, 0) =~= Seq::<u32>::empty());
    }
    while left_index < left_arr.len() && right_index < right_arr.len()
        invariant
            sorted(left_arr@),
            sorted(right_arr@),
            left_index <= left_arr@.len(),
            right_index <= right_arr@.len(),
            sorted(res_arr@),
            res_arr@.to_multiset() == left_arr@.subrange(0, left_index as int).to_multiset().add(
                right_arr@.subrange(0, right_index as int).to_multiset(),
            ),
            forall|k: int|
                0 <= k < res_arr@.len() && left_index < left_arr@.len() ==> res_arr@[k]
                    <= left_arr@[left_index as int],
            forall|k: int|
                0 <= k < res_arr@.len() && right_index < right_arr@.len() ==> res_arr@[k]
                    <= right_arr@[right_index as int],
        decreases left_arr@.len() - left_index + right_arr@.len() - right_index,
    {
        if left_arr[left_index] < right_arr[right_index] {
            res_arr.push(left_arr[left_index]);
            proof {
                assert(left_arr@.subrange(0, left_index as int + 1) =~= left_arr@.subrange(
                    0,
                    left_index as int,
                ).push(left_arr@[left_index as int]));
            }
            left_index += 1;
        } else {
            res_arr.push(right_arr[right_index]);
            proof {
                assert(right_arr@.subrange(0, right_index as int + 1) =~= right_arr@.subrange(
                    0,
                    right_index as int,
                ).push(right_arr@[right_index as int]));
            }
            right_index += 1;
        }
    }

    // Extend the result with what remains on either side
    if left_index < left_arr.len() {
        let tail = slice_subrange(left_arr, left_index, left_arr.len());
        let ghost old_res = res_arr@;
        res_arr.extend_from_slice(tail);
        proof {
            assert(res_arr@ =~= old_res + tail@);
            lemma_multiset_commutative(old_res, tail@);
            assert(left_arr@ =~= left_arr@.subrange(0, left_index as int) + tail@);
            lemma_multiset_commutative(left_arr@.subrange(0, left_index as int), tail@);
            assert(sorted(tail@)) by {
                assert(forall|k: int, l: int|
                    0 <= k < l < tail@.len() ==> tail@[k] == left_arr@[
                    k + left_index as int] && tail@[l] == left_arr@[l + left_index as int]);
            }
            assert forall|k: int, l: int|
                0 <= k < old_res.len() && 0 <= l < tail@.len() implies old_res[k]
                <= tail@[l] by {
                assert(tail@[l] == left_arr@[l + left_index as int]);
                assert(old_res[k] <= left_arr@[left_index as int]);
            }
            lemma_sorted_extend(old_res, tail@, res_arr@);
            assert(res_arr@.to_multiset() =~= left_arr@.to_multiset().add(
                right_arr@.subrange(0, right_index as int).to_multiset(),
            ));
            assert(right_arr@.subrange(0, right_index as int) =~= right_arr@);
        }
    }
    if right_index < right_arr.len() {
        let tail = slice_subrange(right_arr, right_index, right_arr.len());
        let ghost old_res = res_arr@;
        res_arr.extend_from_slice(tail);
        proof {
            assert(res_arr@ =~= old_res + tail@);
            lemma_multiset_commutative(old_res, tail@);
            assert(right_arr@ =~= right_arr@.subrange(0, right_index as int) + tail@);
            lemma_multiset_commutative(right_arr@.subrange(0, right_index as int), tail@);
            assert(sorted(tail@)) by {
                assert(forall|k: int, l: int|
                    0 <= k < l < tail@.len() ==> tail@[k] == right_arr@[
                    k + right_index as int] && tail@[l] == right_arr@[l + right_index as int]);
            }
            assert forall|k: int, l: int|
                0 <= k < old_res.len() && 0 <= l < tail@.len() implies old_res[k]
                <= tail@[l] by {
                assert(tail@[l] == right_arr@[l + right_index as int]);
                assert(old_res[k] <= right_arr@[right_index as int]);
            }
            lemma_sorted_extend(old_res, tail@, res_arr@);
            assert(res_arr@.to_multiset() =~= left_arr@.subrange(
                0,
                left_index as int,
            ).to_multiset().add(right_arr@.to_multiset()));
            assert(left_arr@.subrange(0, left_index as int) =~= left_arr@);
        }
    }
    proof {
        if left_index == left_arr@.len() {
            assert(left_arr@.subrange(0, left_index as int) =~= left_arr@);
        }
        if right_index == right_arr@.len() {
            assert(right_arr@.subrange(0, right_index as int) =~= right_arr@);
        }
    }
    res_arr
}

/// Appending a sorted tail that dominates a sorted prefix keeps the whole
/// sorted.
proof fn lemma_sorted_extend(prefix: Seq<u32>, tail: Seq<u32>, whole: Seq<u32>)
    requires
        sorted(prefix),
        sorted(tail),
        whole == prefix + tail,
        forall|k: int, l: int|
            0 <= k < prefix.len() && 0 <= l < tail.len() ==> prefix[k] <= tail[l],
    ensures
        sorted(whole),
{
    assert forall|i: int, j: int| 0 <= i < j < whole.len() implies whole[i] <= whole[j] by {
        if j < prefix.len() {
            assert(prefix[i] <= prefix[j]);
        } else if i >= prefix.len() {
            assert(tail[i - prefix.len()] <= tail[j - prefix.len()]);
        } else {
            assert(prefix[i] <= tail[j - prefix.len()]);
        }
    }
}

/// The Fibonacci numbers.
pub open spec fn spec_fib(n: nat) -> nat
    decreases n,
{
    if n == 0 {
        0
    } else if n == 1 {
        1
    } else {
        spec_fib((n - 1) as nat) + spec_fib((n - 2) as nat)
    }
}

/// Fibonacci numbers never decrease along the sequence.
proof fn lemma_fib_monotonic(i: nat, j: nat)
    requires
        i <= j,
    ensures
        spec_fib(i) <= spec_fib(j),
    decreases j - i,
{
    if i < 2 && j < 2 {
    } else if i == j {
    } else if i == j - 1 {
        reveal_with_fuel(spec_fib, 2);
        lemma_fib_monotonic(i, (j - 1) as nat);
    } else {
        lemma_fib_monotonic(i, (j - 1) as nat);
        lemma_fib_monotonic(i, (j - 2) as nat);
    }
}

/// O(2^n)
///
/// Fibonacci by the naive double recursion.
pub fn fib(n: u32) -> (r: u32)
    requires
        spec_fib(n as nat) <= u32::MAX,
    ensures
        r == spec_fib(n as nat),
    decreases n,
{
    match n {
        0 => {
            return 0;
        },
        1 => {
            return 1;
        },
        _ => {
            proof {
                lemma_fib_monotonic((n - 1) as nat, n as nat);
                lemma_fib_monotonic((n - 2) as nat, n as nat);
            }
            return fib(n - 1) + fib(n - 2);
        },
    }
}

} // verus!
