use vstd::arithmetic::div_mod::lemma_fundamental_div_mod;
use vstd::arithmetic::div_mod::lemma_mod_decreases;
use vstd::arithmetic::div_mod::lemma_mod_multiples_vanish;
use vstd::arithmetic::div_mod::lemma_small_mod;
use vstd::prelude::*;

pub mod ll;

verus! {

/// Size in bytes of the header that describes one free region.
pub const NODE_SIZE: usize = 16;

/// Alignment in bytes that such a header needs.
pub const NODE_ALIGN: usize = 8;

/// Whether `addr` is a multiple of `align`.
pub open spec fn is_aligned(addr: int, align: int) -> bool {
    addr % align == 0
}

/// The least multiple of `align` that is not below `addr`.
pub open spec fn align_up_spec(addr: int, align: int) -> int {
    if addr % align == 0 {
        addr
    } else {
        addr - addr % align + align
    }
}

/// `align_up_spec` yields an aligned address in `[addr, addr + align)`, and no
/// aligned address lies between `addr` and it.
pub proof fn lemma_align_up_is_least(addr: int, align: int)
    requires
        0 <= addr,
        0 < align,
    ensures
        addr <= align_up_spec(addr, align) < addr + align,
        is_aligned(align_up_spec(addr, align), align),
        forall|m: int| addr <= m && #[trigger] is_aligned(m, align) ==> align_up_spec(addr, align) <= m,
{
    let up = align_up_spec(addr, align);
    let q = addr / align;
    lemma_fundamental_div_mod(addr, align);
    assert(addr == align * q + addr % align);
    if addr % align != 0 {
        assert(up == align * q + align);
        assert(align * q + align == align * (q + 1)) by (nonlinear_arith);
        lemma_mod_multiples_vanish(q + 1, 0, align);
        lemma_small_mod(0, align as nat);
        assert((align * (q + 1) + 0) % align == 0);
    }
    assert forall|m: int| addr <= m && #[trigger] is_aligned(m, align) implies up <= m by {
        if addr % align != 0 {
            let k = m / align;
            lemma_fundamental_div_mod(m, align);
            assert(m == align * k);
            assert(align * k > align * q);
            assert(k > q) by (nonlinear_arith)
                requires
                    align * k > align * q,
                    align > 0,
            ;
            assert(align * k >= align * (q + 1)) by (nonlinear_arith)
                requires
                    k >= q + 1,
                    align > 0,
            ;
            assert(align * (q + 1) == align * q + align) by (nonlinear_arith);
        }
    }
}

/// Rounds `addr` up to the next multiple of `align`; `None` when that multiple
/// does not fit in a `usize`.
pub fn align_up(addr: usize, align: usize) -> (r: Option<usize>)
    requires
        align > 0,
    ensures
        match r {
            Some(a) => a == align_up_spec(addr as int, align as int),
            None => align_up_spec(addr as int, align as int) > usize::MAX,
        },
{
    let remainder: usize = addr % align;
    if remainder == 0 {
        Some(addr)
    } else {
        proof {
            lemma_mod_decreases(addr as nat, align as nat);
        }
        (addr - remainder).checked_add(align)
    }
}

/// Whether `n` is a power of two.
pub open spec fn is_power_of_two(n: usize) -> bool {
    n > 0 && n & ((n - 1) as usize) == 0
}

/// An alignment the allocator can serve: one that divides the header's
/// alignment or is a multiple of it.
pub open spec fn valid_align(align: usize) -> bool {
    align > 0 && (align % NODE_ALIGN == 0 || NODE_ALIGN % align == 0)
}

/// Every power of two is an alignment the allocator can serve.
pub proof fn lemma_power_of_two_is_valid_align(n: usize)
    requires
        is_power_of_two(n),
    ensures
        valid_align(n),
{
    assert(n > 0 && n & ((n - 1) as usize) == 0 ==> n % 8 == 0 || 8usize % n == 0) by (bit_vector);
}

/// The alignment an allocation is served with: the requested one, raised to
/// the header's alignment.
pub open spec fn norm_align(align: usize) -> usize {
    if align < NODE_ALIGN {
        NODE_ALIGN
    } else {
        align
    }
}

/// The number of bytes an allocation occupies: the requested size padded to
/// the served alignment, and at least one header.
pub open spec fn norm_size(size: usize, align: usize) -> int {
    let padded = align_up_spec(size as int, norm_align(align) as int);
    if padded < NODE_SIZE {
        NODE_SIZE as int
    } else {
        padded
    }
}

/// A request the allocator accepts: it can serve the alignment, and the size,
/// padded to the served alignment, does not exceed `isize::MAX`.
pub open spec fn valid_layout(size: usize, align: usize) -> bool {
    &&& valid_align(align)
    &&& size <= isize::MAX - (norm_align(align) - 1)
}

/// Decides `valid_layout`.
pub fn is_valid_layout(size: usize, align: usize) -> (ok: bool)
    ensures
        ok == valid_layout(size, align),
{
    if align == 0 || (align % NODE_ALIGN != 0 && NODE_ALIGN % align != 0) {
        return false;
    }
    let served: usize = if align < NODE_ALIGN {
        NODE_ALIGN
    } else {
        align
    };
    let limit: usize = isize::MAX as usize;
    served - 1 <= limit && size <= limit - (served - 1)
}

} // verus!
