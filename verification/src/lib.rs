//! Prefix computations on binary keys.
//!
//! A key is a sequence of bits, most-significant bit first, held as a slice of
//! booleans. The functions here support range scans over key-value stores that
//! only offer prefix-match queries: given the start and end keys of a range,
//! [`range_prefix`] derives one prefix from each boundary so that the two
//! prefix queries together cover the range. [`shared_prefix`] finds the
//! longest common prefix of two keys, and [`pad`] left-pads a key with zero
//! bits so that two keys can be compared at equal length.

use vstd::prelude::*;
use vstd::slice::slice_index_get;
use vstd::slice::slice_subrange;

verus! {

/// `s` left-padded with `false` bits up to `size` bits. A sequence that is
/// already `size` bits or longer is returned unchanged: padding only adds
/// bits, it never removes any.
pub open spec fn padded(size: int, s: Seq<bool>) -> Seq<bool> {
    if s.len() >= size {
        s
    } else {
        Seq::new((size - s.len()) as nat, |j: int| false) + s
    }
}

/// Left-pads `input` with leading zero bits to a length of `size`.
///
/// The result always holds `max(size, input.len())` bits: an input of `size`
/// bits or more comes back as an unchanged (but freshly allocated) copy,
/// and a shorter input gains `size - input.len()` leading `false` bits
/// followed by the input's bits in their original order.
pub fn pad(size: usize, input: &[bool]) -> (out: Vec<bool>)
    ensures
        out@ == padded(size as int, input@),
        out@.len() == (if input@.len() >= size { input@.len() as int } else { size as int }),
        input@.len() >= size ==> out@ == input@,
{
    let input_len = input.len();
    let mut out: Vec<bool> = Vec::new();

    let mut i: usize = input_len;
    while i < size
        invariant
            input_len <= i,
            input_len >= size ==> i == input_len,
            input_len < size ==> i <= size,
            out@.len() == i - input_len,
            forall|j: int| 0 <= j < out@.len() ==> out@[j] == false,
        decreases size - i,
    {
        out.push(false);
        i = i + 1;
    }

    let ghost lead: int = out@.len() as int;

    let mut k: usize = 0;
    while k < input_len
        invariant
            k <= input_len,
            input_len == input@.len(),
            0 <= lead,
            out@.len() == lead + k,
            forall|j: int| 0 <= j < lead ==> out@[j] == false,
            forall|j: int| lead <= j < out@.len() ==> out@[j] == input@[j - lead],
        decreases input_len - k,
    {
        out.push(*slice_index_get(input, k));
        k = k + 1;
    }

    proof {
        assert(out@ =~= padded(size as int, input@));
    }
    out
}

/// Padding is idempotent: a padded sequence is at least `size` bits long, so
/// padding it again to the same size changes nothing; and a sequence that
/// already holds at least `size` bits is returned with its content unchanged.
pub proof fn lemma_pad_idempotent(size: int, s: Seq<bool>)
    ensures
        padded(size, padded(size, s)) == padded(size, s),
        padded(size, padded(size, s)).len() == padded(size, s).len(),
        s.len() >= size ==> padded(size, s) == s,
{
}

/// Length of the longest run of positions, starting at `i`, on which `a` and
/// `b` hold the same bit. The run ends at the first mismatch or when either
/// sequence is exhausted.
pub open spec fn common_len_from(a: Seq<bool>, b: Seq<bool>, i: int) -> int
    decreases a.len() - i,
{
    if 0 <= i < a.len() && i < b.len() && a[i] == b[i] {
        1 + common_len_from(a, b, i + 1)
    } else {
        0
    }
}

/// Length of the longest common prefix of `a` and `b`.
pub open spec fn common_len(a: Seq<bool>, b: Seq<bool>) -> int {
    common_len_from(a, b, 0)
}

/// `common_len_from(a, b, i)` is determined by any witness `n`: if `a` and
/// `b` agree on every position of `[i, n)` and `n` is the end of a sequence
/// or a mismatch, the run from `i` is exactly `n - i` positions long.
proof fn lemma_common_len_from_exact(a: Seq<bool>, b: Seq<bool>, i: int, n: int)
    requires
        0 <= i <= n,
        n <= a.len(),
        n <= b.len(),
        forall|j: int| i <= j < n ==> a[j] == b[j],
        n == a.len() || n == b.len() || a[n] != b[n],
    ensures
        common_len_from(a, b, i) == n - i,
    decreases n - i,
{
    if i < n {
        lemma_common_len_from_exact(a, b, i + 1, n);
    }
}

proof fn lemma_common_len_from_symmetric(a: Seq<bool>, b: Seq<bool>, i: int)
    ensures
        common_len_from(a, b, i) == common_len_from(b, a, i),
    decreases a.len() - i,
{
    if 0 <= i < a.len() && i < b.len() && a[i] == b[i] {
        lemma_common_len_from_symmetric(a, b, i + 1);
    }
}

/// The longest common prefix is symmetric in its two arguments: it has the
/// same length whichever of the two sequences it is taken from.
pub proof fn lemma_shared_prefix_symmetric(a: Seq<bool>, b: Seq<bool>)
    ensures
        common_len(a, b) == common_len(b, a),
{
    lemma_common_len_from_symmetric(a, b, 0);
}

/// Finds the longest prefix shared by `start` and `end`: the longest leading
/// run of positions on which the two hold the same bit.
///
/// The result is a view into `start` (offset 0, not a copy). Its length is at
/// most `min(start.len(), end.len())`; when it is strictly shorter than both
/// inputs, the two inputs differ at the position just past it. Two sequences
/// that differ at position 0, or of which one is empty, share the empty
/// prefix.
pub fn shared_prefix<'a>(start: &'a [bool], end: &[bool]) -> (prefix: &'a [bool])
    ensures
        prefix@ == start@.subrange(0, common_len(start@, end@)),
        prefix@.len() == common_len(start@, end@),
        prefix@.len() <= start@.len(),
        prefix@.len() <= end@.len(),
        forall|i: int| 0 <= i < prefix@.len() ==> prefix@[i] == start@[i] && prefix@[i] == end@[i],
        prefix@.len() < start@.len() && prefix@.len() < end@.len() ==> start@[prefix@.len() as int]
            != end@[prefix@.len() as int],
{
    let start_len = start.len();
    let end_len = end.len();
    let limit: usize = if start_len < end_len {
        start_len
    } else {
        end_len
    };
    let mut slice_end: usize = 0;
    while slice_end < limit
        invariant
            slice_end <= limit,
            limit <= start@.len(),
            limit <= end@.len(),
            limit == start@.len() || limit == end@.len(),
            forall|j: int| 0 <= j < slice_end ==> start@[j] == end@[j],
        ensures
            slice_end <= limit,
            forall|j: int| 0 <= j < slice_end ==> start@[j] == end@[j],
            slice_end == limit || start@[slice_end as int] != end@[slice_end as int],
        decreases limit - slice_end,
    {
        if *slice_index_get(start, slice_end) != *slice_index_get(end, slice_end) {
            break ;
        }
        slice_end = slice_end + 1;
    }
    proof {
        lemma_common_len_from_exact(start@, end@, 0, slice_end as int);
    }
    slice_subrange(start, 0, slice_end)
}

/// Length of the longest run of positions, starting at `i`, on which `s`
/// holds the bit `bit`.
pub open spec fn same_bit_run_from(s: Seq<bool>, bit: bool, i: int) -> int
    decreases s.len() - i,
{
    if 0 <= i < s.len() && s[i] == bit {
        1 + same_bit_run_from(s, bit, i + 1)
    } else {
        0
    }
}

/// Length of the longest leading run of `s` of the shape
/// `first, !first, !first, ...`: position 0 must hold `first`, and every
/// later position of the run must hold `!first`. An empty sequence, or one
/// that does not begin with `first`, has a run of length 0.
///
/// With `first == false` this is the maximal extension of a range's start
/// boundary that keeps the start key a lower bound of every key sharing the
/// extended prefix; with `first == true`, symmetrically, the maximal
/// extension of the end boundary.
pub open spec fn boundary_run_len(first: bool, s: Seq<bool>) -> int {
    if s.len() > 0 && s[0] == first {
        1 + same_bit_run_from(s, !first, 1)
    } else {
        0
    }
}

/// As with the common run: a witness `n` for the end of a same-bit run pins
/// `same_bit_run_from(s, bit, i)` to exactly `n - i`.
proof fn lemma_same_bit_run_from_exact(s: Seq<bool>, bit: bool, i: int, n: int)
    requires
        0 <= i <= n,
        n <= s.len(),
        forall|j: int| i <= j < n ==> s[j] == bit,
        n == s.len() || s[n] != bit,
    ensures
        same_bit_run_from(s, bit, i) == n - i,
    decreases n - i,
{
    if i < n {
        lemma_same_bit_run_from_exact(s, bit, i + 1, n);
    }
}

/// Counts the leading run of `collection` that begins with the bit `initial`
/// and continues with its negation: the boundary-extension pattern of
/// `range_prefix`. Counting stops at the first position that breaks the
/// pattern, or at the end of `collection`.
fn find_seq(initial: bool, collection: &[bool]) -> (count: usize)
    ensures
        count == boundary_run_len(initial, collection@),
        count <= collection@.len(),
{
    let len = collection.len();
    let mut final_count: usize = 0;
    let mut expected_value = initial;

    while final_count < len
        invariant
            final_count <= len,
            len == collection@.len(),
            expected_value == (if final_count == 0 {
                initial
            } else {
                !initial
            }),
            final_count > 0 ==> collection@[0] == initial,
            forall|j: int| 1 <= j < final_count ==> collection@[j] == !initial,
        ensures
            final_count <= len,
            expected_value == (if final_count == 0 {
                initial
            } else {
                !initial
            }),
            final_count > 0 ==> collection@[0] == initial,
            forall|j: int| 1 <= j < final_count ==> collection@[j] == !initial,
            final_count == len || collection@[final_count as int] != expected_value,
        decreases len - final_count,
    {
        if *slice_index_get(collection, final_count) != expected_value {
            break ;
        }
        final_count = final_count + 1;
        if expected_value == initial {
            expected_value = !initial;
        }
    }

    proof {
        if final_count > 0 {
            lemma_same_bit_run_from_exact(collection@, !initial, 1, final_count as int);
        }
    }
    final_count
}

/// Length of the prefix that `range_prefix` derives from the start key: the
/// common prefix of the two keys, extended by the start key's leading
/// `false, true, true, ...` run within the segment bounded by `end`'s length.
pub open spec fn start_cover_len(start: Seq<bool>, end: Seq<bool>) -> int {
    common_len(start, end) + boundary_run_len(
        false,
        start.subrange(common_len(start, end), end.len() as int),
    )
}

/// Length of the prefix that `range_prefix` derives from the end key: the
/// common prefix of the two keys, extended by the end key's leading
/// `true, false, false, ...` run.
pub open spec fn end_cover_len(start: Seq<bool>, end: Seq<bool>) -> int {
    common_len(start, end) + boundary_run_len(
        true,
        end.subrange(common_len(start, end), end.len() as int),
    )
}

/// Derives the two prefixes that cover the binary range from `start` to
/// `end`: one a view into `start`, the other a view into `end`.
///
/// The common prefix of the two keys is first taken as the root; each
/// boundary's prefix then extends that root by the boundary's leading
/// run of the shape `0, 1, 1, ...` (for the start key) or `1, 0, 0, ...`
/// (for the end key), read within the segment bounded by `end`'s length.
/// Both returned prefixes therefore begin with `shared_prefix(start, end)`.
///
/// The caller must not pass a `start` shorter than `end`: the computation
/// reads `start` across the whole segment `[0, end.len())`, so such inputs
/// are outside its domain. [`checked_range_prefix`] rejects them with
/// [`InvalidRange`] instead.
pub fn range_prefix<'a, 'b>(start: &'a [bool], end: &'b [bool]) -> (prefixes: (
    &'a [bool],
    &'b [bool],
))
    requires
        end@.len() <= start@.len(),
    ensures
        prefixes.0@ == start@.subrange(0, start_cover_len(start@, end@)),
        prefixes.1@ == end@.subrange(0, end_cover_len(start@, end@)),
        common_len(start@, end@) <= prefixes.0@.len() <= end@.len(),
        common_len(start@, end@) <= prefixes.1@.len() <= end@.len(),
        prefixes.0@.subrange(0, common_len(start@, end@)) == start@.subrange(
            0,
            common_len(start@, end@),
        ),
        prefixes.1@.subrange(0, common_len(start@, end@)) == start@.subrange(
            0,
            common_len(start@, end@),
        ),
{
    let segment_len = end.len();

    let base = shared_prefix(start, end);
    let base_len = base.len();

    let start_special = find_seq(false, slice_subrange(start, base_len, segment_len));
    let end_special = find_seq(true, slice_subrange(end, base_len, segment_len));

    let start_prefix_len = base_len + start_special;
    let end_prefix_len = base_len + end_special;

    let start_prefix = slice_subrange(start, 0, start_prefix_len);
    let end_prefix = slice_subrange(end, 0, end_prefix_len);
    proof {
        assert(start_prefix@.subrange(0, base_len as int) =~= start@.subrange(0, base_len as int));
        assert(end_prefix@.subrange(0, base_len as int) =~= end@.subrange(0, base_len as int));
        assert(end@.subrange(0, base_len as int) =~= start@.subrange(0, base_len as int));
    }
    (start_prefix, end_prefix)
}

/// Error reported by [`checked_range_prefix`] when the boundary keys'
/// lengths do not admit the range computation: the start key is shorter
/// than the end key. Callers who hold such keys can pre-pad the start key
/// with [`pad`] to the end key's length.
#[derive(Clone, Copy, Debug, PartialEq, Eq, Structural)]
pub struct InvalidRange;

/// Derives the two range-covering prefixes as [`range_prefix`] does, but
/// checks the boundary keys' lengths first: a `start` shorter than `end`
/// is rejected with [`InvalidRange`] instead of being read out of bounds.
/// Every other pair of keys, the empty ones included, succeeds.
pub fn checked_range_prefix<'a, 'b>(start: &'a [bool], end: &'b [bool]) -> (result: Result<
    (&'a [bool], &'b [bool]),
    InvalidRange,
>)
    ensures
        result is Ok <==> end@.len() <= start@.len(),
        result matches Ok(prefixes) ==> (prefixes.0@ == start@.subrange(
            0,
            start_cover_len(start@, end@),
        ) && prefixes.1@ == end@.subrange(0, end_cover_len(start@, end@))),
{
    if start.len() < end.len() {
        Err(InvalidRange)
    } else {
        Ok(range_prefix(start, end))
    }
}

/// A range whose boundaries are equal is covered by the boundary key itself:
/// the common prefix of `x` with `x` is all of `x`, the segment left beyond
/// it is empty, so both cover lengths are the full length and both of
/// `range_prefix`'s results equal `x`.
pub proof fn lemma_range_prefix_of_equal(x: Seq<bool>)
    ensures
        start_cover_len(x, x) == x.len(),
        end_cover_len(x, x) == x.len(),
        x.subrange(0, x.len() as int) == x,
{
    lemma_common_len_from_exact(x, x, 0, x.len() as int);
    assert(x.subrange(0, x.len() as int) =~= x);
}

} // verus!
