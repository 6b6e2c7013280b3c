//! Bit arithmetic on the free lists of pages, and the choice of a size class.
use vstd::prelude::*;
use vstd::arithmetic::power2::{pow2, lemma_pow2_unfold, lemma2_to64, lemma2_to64_rest};

verus! {

/// Powers of two at which `cal_position` counts the first word of a page of a
/// large block size as full: 2^2 for 2048, 2^4 for 1024, 2^8 for 512, 2^16 for
/// 256, 2^32 for 128.
pub const POWER_2: [u64; 5] = [4, 16, 256, 65536, 4294967296];

/// The block sizes of the small size classes, smallest first.
pub const BLOCK_SIZES: [usize; 8] = [16, 32, 64, 128, 256, 512, 1024, 2048];

/// The index that `find_block` gives a request of `i` bytes: the first block
/// size that holds `i` bytes, or the index of the list of large pages (4) for a
/// request larger than every block size.
pub open spec fn block_index(i: usize) -> usize {
    if i > 2048 {
        4
    } else if i <= 16 {
        0
    } else if i <= 32 {
        1
    } else if i <= 64 {
        2
    } else if i <= 128 {
        3
    } else if i <= 256 {
        4
    } else if i <= 512 {
        5
    } else if i <= 1024 {
        6
    } else {
        7
    }
}

/// Index of the block size that suits a request of `i` bytes.
pub fn find_block(i: usize) -> (r: usize)
    ensures
        r == block_index(i),
        r < 8,
        i <= 2048 ==> BLOCK_SIZES@[r as int] >= i,
        i <= 2048 ==> forall|k: int| 0 <= k < r ==> BLOCK_SIZES@[k] < i,
{
    if i > 2048 {
        return 4;
    }
    let mut j: usize = 0;
    loop
        invariant
            i <= 2048,
            j < 8,
            forall|k: int| 0 <= k < j ==> BLOCK_SIZES@[k] < i,
        decreases 8 - j,
    {
        if BLOCK_SIZES[j] >= i {
            return j;
        } else {
            j = j + 1;
        }
    }
}


/// The exponent of the highest set bit of `j`, that is the integer part of
/// the base-2 logarithm of `j` (0 for `j <= 1`).
pub open spec fn log2(j: u64) -> nat
    decreases j,
{
    if j <= 1 {
        0
    } else {
        1 + log2(j / 2)
    }
}

proof fn lemma_log2_below(j: u64, n: nat)
    requires
        n >= 1,
        j < pow2(n),
    ensures
        log2(j) < n,
    decreases j,
{
    if j > 1 {
        lemma_pow2_unfold(n);
        if n == 1 {
            assert(pow2(0) == 1) by {
                lemma2_to64();
            }
        } else {
            lemma_log2_below(j / 2, (n - 1) as nat);
        }
    }
}

proof fn lemma_log2_u64(j: u64)
    ensures
        log2(j) < 64,
{
    lemma2_to64_rest();
    lemma_log2_below(j, 64);
}

/// `power_int` undoes a shift: the exponent of `1 << k` is `k`.
pub proof fn lemma_log2_of_shift(k: u64)
    requires
        k < 64,
    ensures
        log2(1u64 << k) == k,
    decreases k,
{
    if k == 0 {
        assert(1u64 << 0u64 == 1u64) by (bit_vector);
    } else {
        assert((1u64 << k) / 2 == 1u64 << ((k - 1) as u64) && (1u64 << k) > 1) by (bit_vector)
            requires
                0 < k < 64,
        ;
        lemma_log2_of_shift((k - 1) as u64);
    }
}

/// The exponent of a power of two: for `j` with its highest set bit at
/// position `k`, `k`. A zero argument has no such bit and is refused.
pub fn power_int(j: u64) -> (r: usize)
    requires
        j != 0,
    ensures
        r == log2(j),
        r < 64,
{
    proof {
        lemma_log2_u64(j);
    }
    let mut a: u64 = j;
    let mut i: usize = 0;
    while a != 0
        invariant
            a <= j,
            i <= 64,
            j != 0,
            a != 0 ==> i + log2(a) + 1 == log2(j) + 1,
            a == 0 ==> i == log2(j) + 1,
            log2(j) < 64,
            a != 0 ==> i + log2(a) < 64,
        decreases a,
    {
        proof {
            assert(a >> 1 == a / 2) by (bit_vector);
        }
        a = a >> 1;
        i = i + 1;
    }
    i - 1
}


/// The word of a free list that holds slot `s`, and the mask of its bit
/// there: slot `s` is bit `s % 64` of word `s / 64`.
pub open spec fn slot_position(s: int) -> (usize, u64) {
    ((s / 64) as usize, 1u64 << ((s % 64) as u64))
}

/// Where slot `i` of a page stands in its free list: the word and the mask of
/// its bit. `size_class` does not enter the result.
pub fn decal_position(i: usize, size_class: usize) -> (r: (usize, u64))
    ensures
        r == slot_position(i as int),
        r.0 == i / 64,
        r.1 == 1u64 << ((i % 64) as u64),
{
    let mut pos: usize = 0;
    pos = i / 64;
    let mut j: usize = i;
    j = j - pos * 64;
    let mut ret: u64 = 1;
    if j == 0 {
        proof {
            assert(1u64 << 0u64 == 1u64) by (bit_vector);
        }
        return (pos, 1);
    }
    let ghost total: u64 = j as u64;
    proof {
        assert(1u64 << 0u64 == 1u64) by (bit_vector);
        assert(total - j == 0);
    }
    while j >= 1
        invariant
            total < 64,
            j <= total,
            ret == 1u64 << ((total - j) as u64),
        decreases j,
    {
        let ghost done: u64 = (total - j) as u64;
        proof {
            assert(done < 63 ==> (1u64 << done) * 2 == 1u64 << ((done + 1) as u64)) by (bit_vector);
            assert(done < 63 ==> (1u64 << done) < 0x8000_0000_0000_0000u64) by (bit_vector);
        }
        j = j - 1;
        ret = ret * 2;
    }
    (pos, ret)
}


/// Whether bit `b` of `w` is set.
pub open spec fn bit_set(w: u64, b: int) -> bool {
    0 <= b < 64 && (w >> (b as u64)) & 1u64 == 1u64
}

/// Whether slot `s` of a page whose free list is `arr` is taken.
pub open spec fn slot_used(arr: Seq<u64>, s: int) -> bool {
    bit_set(arr[s / 64], s % 64)
}

/// How many slots of a free list `cal_position` looks at for a page of size
/// class `size_class`: 4096 bytes divided by the block size for 16, 32 and
/// for 128 up to 2048; the 64 bits of the first word for every other class.
pub open spec fn slot_count(size_class: usize) -> int {
    if size_class == 16 {
        256
    } else if size_class == 32 {
        128
    } else if size_class == 128 {
        32
    } else if size_class == 256 {
        16
    } else if size_class == 512 {
        8
    } else if size_class == 1024 {
        4
    } else if size_class == 2048 {
        2
    } else {
        64
    }
}

/// A size class below 64 other than 16 and 32. For such a class a page whose
/// first word is full is not reported as full (see `cal_position_spec`).
pub open spec fn is_irregular_class(size_class: usize) -> bool {
    size_class < 64 && size_class != 16 && size_class != 32
}

/// The first slot at or after `s` and before `cap` that is not taken, or `cap`
/// where there is none.
pub open spec fn first_free_from(arr: Seq<u64>, s: int, cap: int) -> int
    decreases cap - s,
{
    if s >= cap {
        cap
    } else if !slot_used(arr, s) {
        s
    } else {
        first_free_from(arr, s + 1, cap)
    }
}

/// The first of the slots `0..cap` that is not taken, or `cap` where all are.
pub open spec fn first_free(arr: Seq<u64>, cap: int) -> int {
    first_free_from(arr, 0, cap)
}

/// What `cal_position` gives for a free list `arr` and a size class: the word
/// and bit mask of the first free slot among the `slot_count` slots of the
/// class, or `Err` where they are all taken; but for an irregular class with a
/// full first word, word 0 with the mask 0.
pub open spec fn cal_position_spec(arr: Seq<u64>, size_class: usize) -> Result<(usize, u64), ()> {
    if is_irregular_class(size_class) && first_free(arr, 64) == 64 {
        Ok((0, 0))
    } else if first_free(arr, slot_count(size_class)) < slot_count(size_class) {
        Ok(slot_position(first_free(arr, slot_count(size_class))))
    } else {
        Err(())
    }
}

proof fn lemma_first_free_props(arr: Seq<u64>, from: int, cap: int)
    requires
        0 <= from <= cap,
    ensures
        from <= first_free_from(arr, from, cap) <= cap,
        first_free_from(arr, from, cap) < cap ==> !slot_used(arr, first_free_from(arr, from, cap)),
        forall|q: int| from <= q < first_free_from(arr, from, cap) ==> slot_used(arr, q),
    decreases cap - from,
{
    if from < cap {
        lemma_first_free_props(arr, from + 1, cap);
    }
}

/// A block that `cal_position` finds, except the mask 0 of an irregular class,
/// is the first free one among the slots of the class, and its mask is a
/// single bit that is clear in its word.
pub proof fn lemma_found_slot(arr: Seq<u64>, size_class: usize)
    requires
        !(is_irregular_class(size_class) && first_free(arr, 64) == 64),
        cal_position_spec(arr, size_class) is Ok,
    ensures
        ({
            let s = first_free(arr, slot_count(size_class));
            &&& 0 <= s < slot_count(size_class)
            &&& cal_position_spec(arr, size_class) == Ok::<(usize, u64), ()>(slot_position(s))
            &&& !slot_used(arr, s)
            &&& forall|q: int| 0 <= q < s ==> slot_used(arr, q)
            &&& log2(slot_position(s).1) == s % 64
            &&& slot_position(s).1 != 0
            &&& arr[s / 64] + slot_position(s).1 <= u64::MAX
        }),
{
    let cap = slot_count(size_class);
    lemma_first_free_props(arr, 0, cap);
    let s = first_free(arr, cap);
    let b = (s % 64) as u64;
    let w = arr[s / 64];
    lemma_log2_of_shift(b);
    assert(!((w >> b) & 1u64 == 1u64));
    assert(1u64 << b != 0u64 && w + (1u64 << b) <= 0xffff_ffff_ffff_ffffu64) by (bit_vector)
        requires
            b < 64,
            !((w >> b) & 1u64 == 1u64),
    ;
}

proof fn lemma_first_free_at(arr: Seq<u64>, from: int, s: int, cap: int)
    requires
        0 <= from <= s < cap,
        forall|q: int| from <= q < s ==> slot_used(arr, q),
        !slot_used(arr, s),
    ensures
        first_free_from(arr, from, cap) == s,
    decreases s - from,
{
    if from < s {
        lemma_first_free_at(arr, from + 1, s, cap);
    }
}

proof fn lemma_first_free_none(arr: Seq<u64>, from: int, cap: int)
    requires
        0 <= from <= cap,
        forall|q: int| from <= q < cap ==> slot_used(arr, q),
    ensures
        first_free_from(arr, from, cap) == cap,
    decreases cap - from,
{
    if from < cap {
        lemma_first_free_none(arr, from + 1, cap);
    }
}

proof fn lemma_shift_step(w: u64, k: u64)
    requires
        k < 64,
    ensures
        (w >> k) >> 1u64 == (if k < 63 { w >> ((k + 1) as u64) } else { 0u64 }),
        (1u64 << k) << 1u64 == (if k < 63 { 1u64 << ((k + 1) as u64) } else { 0u64 }),
        1u64 << k != 0u64,
        ((1u64 << k) == 4294967296u64) == (k == 32),
        ((1u64 << k) == 65536u64) == (k == 16),
        ((1u64 << k) == 256u64) == (k == 8),
        ((1u64 << k) == 16u64) == (k == 4),
        ((1u64 << k) == 4u64) == (k == 2),
{
    assert((w >> k) >> 1u64 == (if k < 63 { w >> ((k + 1) as u64) } else { 0u64 })) by (bit_vector)
        requires k < 64;
    assert((1u64 << k) << 1u64 == (if k < 63 { 1u64 << ((k + 1) as u64) } else { 0u64 })) by (bit_vector)
        requires k < 64;
    assert(1u64 << k != 0u64) by (bit_vector)
        requires k < 64;
    assert(((1u64 << k) == 4294967296u64) == (k == 32)
        && ((1u64 << k) == 65536u64) == (k == 16)
        && ((1u64 << k) == 256u64) == (k == 8)
        && ((1u64 << k) == 16u64) == (k == 4)
        && ((1u64 << k) == 4u64) == (k == 2)) by (bit_vector)
        requires k < 64;
}

/// The word and bit mask of the first free slot of a page's free list `arr`
/// for a page of block size `size_class`, or `Err` when the page is full (see
/// `cal_position_spec`).
pub fn cal_position(arr: &[u64; 4], size_class: usize) -> (r: Result<(usize, u64), ()>)
    ensures
        r == cal_position_spec(arr@, size_class),
{
    if size_class < 64 {
        let mut id: usize = 0;
        loop
            invariant
                size_class < 64,
                id * 64 < slot_count(size_class),
                forall|q: int| 0 <= q < id * 64 ==> slot_used(arr@, q),
            decreases 4 - id,
        {
            let mut i: u64 = arr[id];
            let mut j: u64 = 1;
            let ghost w: u64 = arr@[id as int];
            let ghost mut k: u64 = 0;
            proof {
                assert(w >> 0u64 == w) by (bit_vector);
                assert(1u64 << 0u64 == 1u64) by (bit_vector);
            }
            loop
                invariant_except_break
                    k <= 64,
                    k < 64 ==> i == w >> k && j == 1u64 << k,
                    k == 64 ==> i == 0 && j == 0 && is_irregular_class(size_class),
                invariant
                    size_class < 64,
                    id * 64 < slot_count(size_class),
                    w == arr@[id as int],
                    forall|q: int| 0 <= q < id * 64 ==> slot_used(arr@, q),
                    forall|b: int| 0 <= b < k ==> bit_set(w, b),
                ensures
                    k == 64,
                    (size_class == 16 && id < 3) || (size_class == 32 && id < 1),
                decreases 65 - k,
            {
                proof {
                    if k == 64 {
                        assert(i & 1u64 == 0u64) by (bit_vector)
                            requires i == 0u64;
                    }
                }
                if i & 1 == 1 {
                    proof {
                        lemma_shift_step(w, k);
                    }
                    i = i >> 1;
                    j = j << 1;
                    proof {
                        k = (k + 1) as u64;
                        if k < 64 {
                            lemma_shift_step(w, k);
                        }
                    }
                } else {
                    proof {
                        if k < 64 {
                            let s = id * 64 + k;
                            assert(s / 64 == id as int);
                            assert(s % 64 == k as int);
                            assert(!slot_used(arr@, s));
                            assert forall|q: int| 0 <= q < s implies slot_used(arr@, q) by {
                                if q >= id * 64 {
                                    assert(q / 64 == id as int);
                                    assert(q % 64 == q - id * 64);
                                    assert(bit_set(w, q - id * 64));
                                }
                            }
                            lemma_first_free_at(arr@, 0, s, slot_count(size_class));
                            if is_irregular_class(size_class) {
                                assert(id == 0);
                                lemma_first_free_at(arr@, 0, s, 64);
                            }
                        } else {
                            assert(id == 0);
                            assert forall|q: int| 0 <= q < 64 implies slot_used(arr@, q) by {
                                assert(q / 64 == 0);
                                assert(q % 64 == q);
                            }
                            lemma_first_free_none(arr@, 0, 64);
                        }
                    }
                    return Ok((id, j));
                }
                if j == 0 {
                    if size_class == 16 {
                        if id == 3 {
                            proof {
                                assert forall|q: int| 0 <= q < 256 implies slot_used(arr@, q) by {
                                    if q >= 192 {
                                        assert(q / 64 == 3);
                                        assert(q % 64 == q - 192);
                                    }
                                }
                                lemma_first_free_none(arr@, 0, 256);
                            }
                            return Err(());
                        }
                        break;
                    }
                    if size_class == 32 {
                        if id == 1 {
                            proof {
                                assert forall|q: int| 0 <= q < 128 implies slot_used(arr@, q) by {
                                    if q >= 64 {
                                        assert(q / 64 == 1);
                                        assert(q % 64 == q - 64);
                                    }
                                }
                                lemma_first_free_none(arr@, 0, 128);
                            }
                            return Err(());
                        }
                        break;
                    }
                }
            }
            proof {
                assert forall|q: int| 0 <= q < (id + 1) * 64 implies slot_used(arr@, q) by {
                    if q >= id * 64 {
                        assert(q / 64 == id as int);
                        assert(q % 64 == q - id * 64);
                    }
                }
            }
            id = id + 1;
        }
    } else {
        let mut i: u64 = arr[0];
        let mut j: u64 = 1;
        let ghost w: u64 = arr@[0];
        let ghost mut k: u64 = 0;
        proof {
            assert(w >> 0u64 == w) by (bit_vector);
            assert(1u64 << 0u64 == 1u64) by (bit_vector);
        }
        loop
            invariant
                size_class >= 64,
                w == arr@[0],
                k < slot_count(size_class),
                i == w >> k,
                j == 1u64 << k,
                forall|b: int| 0 <= b < k ==> bit_set(w, b),
            decreases 64 - k,
        {
            if i & 1 == 1 {
                proof {
                    lemma_shift_step(w, k);
                }
                i = i >> 1;
                j = j << 1;
                proof {
                    k = (k + 1) as u64;
                    if k < 64 {
                        lemma_shift_step(w, k);
                    }
                }
            } else {
                proof {
                    assert(!slot_used(arr@, k as int));
                    assert forall|q: int| 0 <= q < k implies slot_used(arr@, q) by {
                        assert(q / 64 == 0);
                        assert(q % 64 == q);
                    }
                    lemma_first_free_at(arr@, 0, k as int, slot_count(size_class));
                }
                return Ok((0, j));
            }
            proof {
                assert forall|q: int| 0 <= q < k implies slot_used(arr@, q) by {
                    assert(q / 64 == 0);
                    assert(q % 64 == q);
                }
            }
            if j == 0 {
                proof {
                    lemma_first_free_none(arr@, 0, slot_count(size_class));
                }
                return Err(());
            }
            if size_class == 128 {
                if j == POWER_2[4] {
                    proof {
                        lemma_first_free_none(arr@, 0, slot_count(size_class));
                    }
                    return Err(());
                }
            }
            if size_class == 256 {
                if j == POWER_2[3] {
                    proof {
                        lemma_first_free_none(arr@, 0, slot_count(size_class));
                    }
                    return Err(());
                }
            }
            if size_class == 512 {
                if j == POWER_2[2] {
                    proof {
                        lemma_first_free_none(arr@, 0, slot_count(size_class));
                    }
                    return Err(());
                }
            }
            if size_class == 1024 {
                if j == POWER_2[1] {
                    proof {
                        lemma_first_free_none(arr@, 0, slot_count(size_class));
                    }
                    return Err(());
                }
            }
            if size_class == 2048 {
                if j == POWER_2[0] {
                    proof {
                        lemma_first_free_none(arr@, 0, slot_count(size_class));
                    }
                    return Err(());
                }
            }
        }
    }
}


/// On a free list with no block taken, `cal_position` finds the first block of
/// the first word, whatever the size class.
pub proof fn lemma_empty_free_list(arr: Seq<u64>, size_class: usize)
    requires
        arr == seq![0u64, 0u64, 0u64, 0u64],
    ensures
        cal_position_spec(arr, size_class) == Ok::<(usize, u64), ()>((0usize, 1u64)),
{
    assert((0u64 >> 0u64) & 1u64 == 0u64) by (bit_vector);
    assert(1u64 << 0u64 == 1u64) by (bit_vector);
    assert(!slot_used(arr, 0));
    lemma_first_free_at(arr, 0, 0, 64);
    lemma_first_free_at(arr, 0, 0, slot_count(size_class));
}

/// `decal_position` undoes `cal_position`: for the block that `cal_position`
/// finds, with a nonzero mask `t` at word `pos`, the slot `pos * 64` plus the
/// exponent of `t` is a free slot, and `decal_position` gives back `pos` and
/// `t` for it.
pub proof fn lemma_decal_inverts_cal(arr: Seq<u64>, size_class: usize, pos: usize, t: u64)
    requires
        cal_position_spec(arr, size_class) == Ok::<(usize, u64), ()>((pos, t)),
        t != 0,
    ensures
        slot_position(pos * 64 + log2(t)) == (pos, t),
        !slot_used(arr, pos * 64 + log2(t)),
        pos * 64 + log2(t) < slot_count(size_class),
{
    if is_irregular_class(size_class) && first_free(arr, 64) == 64 {
        assert(t == 0);
    } else {
        lemma_found_slot(arr, size_class);
        let s = first_free(arr, slot_count(size_class));
        assert(pos * 64 + log2(t) == s);
    }
}

/// `cal_position` reports a page full only when it is: for every size class
/// other than an irregular one, the result is `Err` exactly when every one of
/// the class's slots is taken, so a page with any free slot gives `Ok`.
pub proof fn lemma_cal_position_err_iff_full(arr: Seq<u64>, size_class: usize)
    requires
        !is_irregular_class(size_class),
    ensures
        (cal_position_spec(arr, size_class) is Err) == (forall|q: int|
            0 <= q < slot_count(size_class) ==> slot_used(arr, q)),
{
    let cap = slot_count(size_class);
    lemma_first_free_props(arr, 0, cap);
    if forall|q: int| 0 <= q < cap ==> slot_used(arr, q) {
        lemma_first_free_none(arr, 0, cap);
    }
}

/// What `cal_position` finds on a page with a free slot, for a size class
/// other than an irregular one: the lowest free slot `s` of the class, given as
/// word `s / 64` and the mask `1 << (s % 64)`.
pub proof fn lemma_cal_position_first_free(arr: Seq<u64>, size_class: usize, q: int)
    requires
        !is_irregular_class(size_class),
        0 <= q < slot_count(size_class),
        !slot_used(arr, q),
    ensures
        ({
            let r = cal_position_spec(arr, size_class);
            &&& r is Ok
            &&& exists|s: int|
                #![trigger slot_used(arr, s)]
                {
                    &&& 0 <= s <= q
                    &&& !slot_used(arr, s)
                    &&& (forall|q2: int| 0 <= q2 < s ==> slot_used(arr, q2))
                    &&& r == Ok::<(usize, u64), ()>(((s / 64) as usize, 1u64 << ((s % 64) as u64)))
                }
        }),
{
    let cap = slot_count(size_class);
    lemma_first_free_props(arr, 0, cap);
    let s = first_free(arr, cap);
    assert(s <= q);
    assert(!slot_used(arr, s));
}

/// For an irregular size class `cal_position` looks only at the first word:
/// the lowest free bit `b` of it gives word 0 and the mask `1 << b`, and a
/// full first word gives word 0 and the mask 0; never `Err`.
pub proof fn lemma_cal_position_irregular(arr: Seq<u64>, size_class: usize)
    requires
        is_irregular_class(size_class),
    ensures
        (forall|q: int| 0 <= q < 64 ==> slot_used(arr, q)) ==> cal_position_spec(arr, size_class)
            == Ok::<(usize, u64), ()>((0usize, 0u64)),
        forall|q: int|
            0 <= q < 64 && !slot_used(arr, q) && (forall|q2: int| 0 <= q2 < q ==> slot_used(arr, q2))
                ==> cal_position_spec(arr, size_class) == Ok::<(usize, u64), ()>(
                (0usize, 1u64 << (q as u64)),
            ),
{
    lemma_first_free_props(arr, 0, 64);
    if forall|q: int| 0 <= q < 64 ==> slot_used(arr, q) {
        lemma_first_free_none(arr, 0, 64);
    }
    assert forall|q: int|
        0 <= q < 64 && !slot_used(arr, q) && (forall|q2: int| 0 <= q2 < q ==> slot_used(arr, q2))
            implies cal_position_spec(arr, size_class) == Ok::<(usize, u64), ()>(
        (0usize, 1u64 << (q as u64)),
    ) by {
        lemma_first_free_at(arr, 0, q, 64);
    }
}

/// The slots of a page of each block size from 16 to 2048 fill its 4096 bytes
/// of data, and fit the 4 words of a free list.
pub proof fn lemma_slot_count_fills_page(size_class: usize)
    requires
        size_class == 16 || size_class == 32 || size_class == 64 || size_class == 128
            || size_class == 256 || size_class == 512 || size_class == 1024 || size_class == 2048,
    ensures
        slot_count(size_class) * size_class == 4096,
        slot_count(size_class) <= 256,
{
}

/// `power_int` gives the position of the highest set bit: `2^r <= j <
/// 2^(r + 1)` for the result `r` on a nonzero `j`.
pub proof fn lemma_log2_bounds(j: u64)
    requires
        j != 0,
    ensures
        pow2(log2(j)) <= j < pow2(log2(j) + 1),
    decreases j,
{
    lemma_pow2_unfold(log2(j) + 1);
    if j <= 1 {
        lemma2_to64();
    } else {
        lemma_log2_bounds(j / 2);
        lemma_pow2_unfold(log2(j));
    }
}

} // verus!
