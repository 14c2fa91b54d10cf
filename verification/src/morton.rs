//! 2D Morton (Z-order) encoding utilities: 16-bit-per-axis bit interleaving,
//! a `(code, index)` record ordered by code, common-prefix measurement, and
//! the split-finding routine used by the hierarchy builder.

use vstd::prelude::*;
use vstd::std_specs::bits::u32_leading_zeros;

verus! {

/// Stores a Morton code alongside the index of the rectangle it encodes.
///
/// Ordering throughout this module considers only `code`; `index` is a
/// payload used to recover the original rectangle after sorting.
#[derive(Debug, Clone, Copy, PartialEq, Eq, Hash, Structural)]
pub struct MortonCode {
    pub code: u32,
    pub index: usize,
}

/// Spreads the low 16 bits of `v` so that bit `i` of the input lands at bit
/// `2 * i` of the output, with zeros in between.
pub open spec fn spec_expand(v: u32) -> u32 {
    let v1 = (v | (v << 8)) & 0x00FF00FF;
    let v2 = (v1 | (v1 << 4)) & 0x0F0F0F0F;
    let v3 = (v2 | (v2 << 2)) & 0x33333333;
    (v3 | (v3 << 1)) & 0x55555555
}

/// The 32-bit Morton code of a 16-bit coordinate pair: bits of `x` occupy
/// the even positions, bits of `y` the odd positions.
pub open spec fn spec_morton_2d(x: u16, y: u16) -> u32 {
    spec_expand(x as u32) | (spec_expand(y as u32) << 1)
}

fn expand_bits(v: u32) -> (r: u32)
    requires
        v <= 0xFFFF,
    ensures
        r == spec_expand(v),
{
    let v1: u32 = (v | (v << 8)) & 0x00FF00FF;
    let v2: u32 = (v1 | (v1 << 4)) & 0x0F0F0F0F;
    let v3: u32 = (v2 | (v2 << 2)) & 0x33333333;
    let v4: u32 = (v3 | (v3 << 1)) & 0x55555555;
    v4
}

/// Combines two 16-bit coordinates into one 32-bit Morton code by bit
/// interleaving.
pub fn morton_2d(x: u16, y: u16) -> (r: u32)
    ensures
        r == spec_morton_2d(x, y),
{
    expand_bits(x as u32) | (expand_bits(y as u32) << 1)
}

/// Bit interleaving is injective: equal Morton codes come from equal
/// coordinate pairs.
pub proof fn lemma_morton_2d_injective(x1: u16, y1: u16, x2: u16, y2: u16)
    requires
        spec_morton_2d(x1, y1) == spec_morton_2d(x2, y2),
    ensures
        x1 == x2,
        y1 == y2,
{
    let a1 = x1 as u32;
    let b1 = y1 as u32;
    let a2 = x2 as u32;
    let b2 = y2 as u32;
    let p1 = (a1 | (a1 << 8)) & 0x00FF00FF;
    let p2 = (p1 | (p1 << 4)) & 0x0F0F0F0F;
    let p3 = (p2 | (p2 << 2)) & 0x33333333;
    let pa = (p3 | (p3 << 1)) & 0x55555555;
    let q1 = (b1 | (b1 << 8)) & 0x00FF00FF;
    let q2 = (q1 | (q1 << 4)) & 0x0F0F0F0F;
    let q3 = (q2 | (q2 << 2)) & 0x33333333;
    let qa = (q3 | (q3 << 1)) & 0x55555555;
    let r1 = (a2 | (a2 << 8)) & 0x00FF00FF;
    let r2 = (r1 | (r1 << 4)) & 0x0F0F0F0F;
    let r3 = (r2 | (r2 << 2)) & 0x33333333;
    let ra = (r3 | (r3 << 1)) & 0x55555555;
    let s1 = (b2 | (b2 << 8)) & 0x00FF00FF;
    let s2 = (s1 | (s1 << 4)) & 0x0F0F0F0F;
    let s3 = (s2 | (s2 << 2)) & 0x33333333;
    let sa = (s3 | (s3 << 1)) & 0x55555555;
    assert(spec_expand(a1) == pa);
    assert(spec_expand(b1) == qa);
    assert(spec_expand(a2) == ra);
    assert(spec_expand(b2) == sa);
    assert(a1 == a2 && b1 == b2) by (bit_vector)
        requires
            a1 <= 0xFFFF,
            b1 <= 0xFFFF,
            a2 <= 0xFFFF,
            b2 <= 0xFFFF,
            p1 == (a1 | (a1 << 8)) & 0x00FF00FF,
            p2 == (p1 | (p1 << 4)) & 0x0F0F0F0F,
            p3 == (p2 | (p2 << 2)) & 0x33333333,
            pa == (p3 | (p3 << 1)) & 0x55555555,
            q1 == (b1 | (b1 << 8)) & 0x00FF00FF,
            q2 == (q1 | (q1 << 4)) & 0x0F0F0F0F,
            q3 == (q2 | (q2 << 2)) & 0x33333333,
            qa == (q3 | (q3 << 1)) & 0x55555555,
            r1 == (a2 | (a2 << 8)) & 0x00FF00FF,
            r2 == (r1 | (r1 << 4)) & 0x0F0F0F0F,
            r3 == (r2 | (r2 << 2)) & 0x33333333,
            ra == (r3 | (r3 << 1)) & 0x55555555,
            s1 == (b2 | (b2 << 8)) & 0x00FF00FF,
            s2 == (s1 | (s1 << 4)) & 0x0F0F0F0F,
            s3 == (s2 | (s2 << 2)) & 0x33333333,
            sa == (s3 | (s3 << 1)) & 0x55555555,
            (pa | (qa << 1)) == (ra | (sa << 1)),
    ;
}

/// The number of leading bits on which two codes agree.
pub open spec fn spec_common_prefix(a: u32, b: u32) -> u32 {
    u32_leading_zeros(a ^ b)
}

/// Measures the common prefix of two Morton codes.
pub fn calc_common_prefix(code_a: u32, code_b: u32) -> (r: u32)
    ensures
        r == spec_common_prefix(code_a, code_b),
{
    (code_a ^ code_b).leading_zeros()
}

/// Common-prefix length with itself is 32, and the measure is symmetric.
pub proof fn lemma_common_prefix_basics(a: u32, b: u32)
    ensures
        spec_common_prefix(a, a) == 32,
        spec_common_prefix(a, b) == spec_common_prefix(b, a),
        spec_common_prefix(a, b) <= 32,
{
    vstd::std_specs::bits::axiom_u32_leading_zeros(a ^ b);
    assert(a ^ a == 0) by (bit_vector);
    assert(a ^ b == b ^ a) by (bit_vector);
    assert(u32_leading_zeros(0) == 32);
}

/// For codes in sorted order, growing the right endpoint can only shrink the
/// common prefix with the left endpoint.
pub proof fn lemma_common_prefix_monotone(a: u32, b: u32, c: u32)
    requires
        a <= b,
        b <= c,
    ensures
        spec_common_prefix(a, b) >= spec_common_prefix(a, c),
{
    let x = a ^ b;
    let y = a ^ c;
    let j = u32_leading_zeros(x);
    let k = u32_leading_zeros(y);
    vstd::std_specs::bits::axiom_u32_leading_zeros(x);
    vstd::std_specs::bits::axiom_u32_leading_zeros(y);
    if j < k {
        // Bit 31 - j is the highest bit where a and b differ, while a and c
        // agree on that bit and on everything above it; that contradicts
        // a <= b <= c.
        let p: u32 = vstd::prelude::sub(31u32, j);
        assert(x >> vstd::prelude::sub(32u32, j) == 0);
        assert((x >> vstd::prelude::sub(31u32, j)) & 1 != 0);
        assert(x >> p == 1) by (bit_vector)
            requires
                j < 32,
                p == vstd::prelude::sub(31u32, j),
                x >> vstd::prelude::sub(32u32, j) == 0,
                (x >> vstd::prelude::sub(31u32, j)) & 1 != 0,
        ;
        assert(y >> p == 0) by (bit_vector)
            requires
                j < k,
                k <= 32,
                p == vstd::prelude::sub(31u32, j),
                y >> vstd::prelude::sub(32u32, k) == 0,
        ;
        assert(false) by (bit_vector)
            requires
                x == a ^ b,
                y == a ^ c,
                a <= b,
                b <= c,
                x >> p == 1,
                y >> p == 0,
        ;
    }
}

/// Whether a code sequence is sorted in ascending order of code.
pub open spec fn sorted_by_code(s: Seq<MortonCode>) -> bool {
    forall|p: int, q: int| 0 <= p < q < s.len() ==> s[p].code <= s[q].code
}

/// Finds the split position for a range of Morton codes sorted in ascending
/// order of code.
///
/// Returns an index in `[first, last)`. When the end codes are identical the
/// range is split in the middle; otherwise, on sorted input, the result is
/// the largest index in the range whose code shares strictly more leading
/// bits with `codes[first]` than `codes[last]` does (or `first` when no
/// such index exists).
pub fn find_split(morton_codes: &[MortonCode], first: usize, last: usize) -> (r: usize)
    requires
        first < last,
        last < morton_codes@.len(),
        last < usize::MAX / 2,
    ensures
        first <= r < last,
        morton_codes@[first as int].code == morton_codes@[last as int].code ==> r == (first + last)
            / 2,
        morton_codes@[first as int].code != morton_codes@[last as int].code ==> r == first
            || spec_common_prefix(morton_codes@[first as int].code, morton_codes@[r as int].code)
            > spec_common_prefix(
            morton_codes@[first as int].code,
            morton_codes@[last as int].code,
        ),
        // On sorted input the result is maximal: no later position in the
        // range shares more leading bits with the first code than the last
        // one does.
        morton_codes@[first as int].code != morton_codes@[last as int].code && sorted_by_code(
            morton_codes@,
        ) ==> forall|s2: int|
            r < s2 <= last ==> spec_common_prefix(
                morton_codes@[first as int].code,
                #[trigger] morton_codes@[s2].code,
            ) <= spec_common_prefix(
                morton_codes@[first as int].code,
                morton_codes@[last as int].code,
            ),
{
    let first_code = morton_codes[first].code;
    let last_code = morton_codes[last].code;
    // Split the range in the middle for identical Morton codes.
    if first_code == last_code {
        let mid = (first + last) / 2;
        assert(first <= mid < last);
        return mid;
    }
    let common_prefix = calc_common_prefix(first_code, last_code);
    // Binary probe for the highest position that shares more than
    // `common_prefix` bits with the first code.
    let mut split = first;
    let mut step = last - first;
    while step > 1
        invariant
            first <= split < last,
            1 <= step <= last - first,
            first < last,
            last < morton_codes@.len(),
            last < usize::MAX / 2,
            common_prefix == spec_common_prefix(
                morton_codes@[first as int].code,
                morton_codes@[last as int].code,
            ),
            first_code == morton_codes@[first as int].code,
            split == first || spec_common_prefix(first_code, morton_codes@[split as int].code)
                > common_prefix,
            sorted_by_code(morton_codes@) ==> forall|s2: int|
                split + step <= s2 <= last ==> spec_common_prefix(
                    first_code,
                    #[trigger] morton_codes@[s2].code,
                ) <= common_prefix,
        decreases step,
    {
        let ghost step0 = step as int;
        let ghost split0 = split as int;
        // Exponential decrease.
        step = (step + 1) / 2;
        // Proposed new position.
        assert(split + step < 2 * last);
        let new_split = split + step;
        let mut accepted = false;
        if new_split < last {
            let split_code = morton_codes[new_split].code;
            let split_prefix = calc_common_prefix(first_code, split_code);
            if split_prefix > common_prefix {
                // Accept the proposal.
                split = new_split;
                accepted = true;
            }
        }
        proof {
            if sorted_by_code(morton_codes@) {
                assert forall|s2: int|
                    split + step <= s2 <= last implies spec_common_prefix(
                    first_code,
                    #[trigger] morton_codes@[s2].code,
                ) <= common_prefix by {
                    if accepted {
                        // The window shrank by at most half, staying inside
                        // the region the old invariant already rules out.
                        assert(split0 + step0 <= split + step);
                        assert(spec_common_prefix(first_code, morton_codes@[s2].code)
                            <= common_prefix);
                    } else if split0 + step as int >= last {
                        // Out-of-range proposal: only the range end is left,
                        // and the prefix with itself is not strictly longer.
                        assert(s2 == last);
                        lemma_common_prefix_basics(
                            first_code,
                            morton_codes@[last as int].code,
                        );
                    } else {
                        // The probe found no longer shared prefix there; in
                        // sorted order no later position can do better.
                        let p = split0 + step as int;
                        assert(spec_common_prefix(first_code, morton_codes@[p].code)
                            <= common_prefix);
                        if s2 > p {
                            assert(morton_codes@[first as int].code <= morton_codes@[p].code);
                            assert(morton_codes@[p].code <= morton_codes@[s2].code);
                            lemma_common_prefix_monotone(
                                first_code,
                                morton_codes@[p].code,
                                morton_codes@[s2].code,
                            );
                        }
                    }
                }
            }
        }
    }
    split
}

/// Measures the common prefix of the codes at two positions.
pub fn delta(i: usize, j: usize, morton_codes: &[MortonCode]) -> (r: u32)
    requires
        i < morton_codes@.len(),
        j < morton_codes@.len(),
    ensures
        r == spec_common_prefix(morton_codes@[i as int].code, morton_codes@[j as int].code),
{
    (morton_codes[i].code ^ morton_codes[j].code).leading_zeros()
}

} // verus!
