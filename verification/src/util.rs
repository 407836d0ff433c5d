use vstd::prelude::*;

verus! {

/// The larger of two integers.
pub open spec fn spec_max(a: int, b: int) -> int {
    if a >= b { a } else { b }
}

/// The smaller of two integers.
pub open spec fn spec_min(a: int, b: int) -> int {
    if a <= b { a } else { b }
}

pub fn max_i32(a: i32, b: i32) -> (r: i32)
    ensures
        r == spec_max(a as int, b as int),
{
    if a >= b { a } else { b }
}

pub fn min_i32(a: i32, b: i32) -> (r: i32)
    ensures
        r == spec_min(a as int, b as int),
{
    if a <= b { a } else { b }
}

/// Whether `low <= value <= high`.
pub fn between(value: i64, low: i64, high: i64) -> (r: bool)
    ensures
        r == (low <= value && value <= high),
{
    low <= value && value <= high
}

/// What a C string buffer of `dst_len` bytes holds after `src` was copied into
/// it: as many bytes of `src` as fit before a terminating zero, zeros after.
pub open spec fn cstr_copy(dst_len: nat, src: Seq<u8>) -> Seq<i8> {
    Seq::new(
        dst_len,
        |k: int|
            if k < src.len() && k < dst_len - 1 {
                src[k] as i8
            } else {
                0i8
            },
    )
}

/// Copies `src` into the zero-terminated buffer `dst`, truncating it so that
/// the terminator fits; an empty buffer is left as it is.
pub fn copy_bytes_to_cstr(dst: &mut [i8], src: &[u8])
    ensures
        old(dst)@.len() == 0 ==> final(dst)@ == old(dst)@,
        old(dst)@.len() > 0 ==> final(dst)@ == cstr_copy(old(dst)@.len(), src@),
{
    let n = dst.len();
    if n == 0 {
        return;
    }
    let limit = if src.len() < n - 1 { src.len() } else { n - 1 };
    let mut i: usize = 0;
    while i < n
        invariant
            n == dst@.len(),
            n > 0,
            i <= n,
            limit <= n - 1,
            limit <= src@.len(),
            limit == (if src@.len() < n - 1 { src@.len() } else { (n - 1) as nat }),
            forall|k: int| 0 <= k < i ==> dst@[k] == cstr_copy(n as nat, src@)[k],
        decreases n - i,
    {
        if i < limit {
            dst[i] = src[i] as i8;
        } else {
            dst[i] = 0;
        }
        i = i + 1;
    }
    assert(dst@ =~= cstr_copy(n as nat, src@));
}


/// Copies the C string in `src` (its bytes before the first zero) into the
/// zero-terminated buffer `dst`, truncating it so that the terminator fits;
/// an empty buffer is left as it is.
pub fn copy_cstr(dst: &mut [i8], src: &[u8])
    ensures
        old(dst)@.len() == 0 ==> final(dst)@ == old(dst)@,
        old(dst)@.len() > 0 ==> final(dst)@ == cstr_copy(old(dst)@.len(), crate::window::before_nul(src@)),
{
    let s = crate::window::cstr_bytes(src, src.len());
    proof { crate::window::lemma_before_nul_len(src@); }
    copy_bytes_to_cstr(dst, s.as_slice());
}

} // verus!
