//! Alignment arithmetic on addresses.
use vstd::prelude::*;
use vstd::arithmetic::div_mod::lemma_fundamental_div_mod;
use vstd::arithmetic::div_mod::lemma_fundamental_div_mod_converse;

verus! {

/// Whether `addr` is a multiple of `align`.
pub open spec fn is_aligned(addr: int, align: int) -> bool {
    addr % align == 0
}

/// The least multiple of `align` that is not below `addr`.
pub open spec fn align_up(addr: int, align: int) -> int {
    if addr % align == 0 {
        addr
    } else {
        addr + (align - addr % align)
    }
}

/// `align_up(addr, align)` is aligned, lies in `[addr, addr + align)`, and no
/// address between `addr` and it is aligned.
pub proof fn lemma_align_up_is_least(addr: int, align: int)
    requires
        align > 0,
    ensures
        is_aligned(align_up(addr, align), align),
        addr <= align_up(addr, align) < addr + align,
        forall|a: int| addr <= a < align_up(addr, align) ==> !is_aligned(a, align),
{
    let r = addr % align;
    let q = addr / align;
    lemma_fundamental_div_mod(addr, align);
    assert(0 <= r < align);
    if r != 0 {
        let up = addr + (align - r);
        assert(up == (q + 1) * align + 0) by (nonlinear_arith)
            requires
                addr == align * q + r,
                up == addr + (align - r),
        ;
        lemma_fundamental_div_mod_converse(up, align, q + 1, 0);
        assert forall|a: int| addr <= a < up implies !is_aligned(a, align) by {
            let ra = r + (a - addr);
            assert(a == q * align + ra) by (nonlinear_arith)
                requires
                    addr == align * q + r,
                    ra == r + (a - addr),
            ;
            lemma_fundamental_div_mod_converse(a, align, q, ra);
        }
    }
}

/// An address that is aligned for a coarse alignment is aligned for every
/// finer one that divides it.
pub proof fn lemma_aligned_for_finer(addr: int, coarse: int, fine: int)
    requires
        fine > 0,
        coarse > 0,
        is_aligned(addr, coarse),
        is_aligned(coarse, fine),
    ensures
        is_aligned(addr, fine),
        align_up(addr, fine) == addr,
{
    let k = addr / coarse;
    let m = coarse / fine;
    lemma_fundamental_div_mod(addr, coarse);
    lemma_fundamental_div_mod(coarse, fine);
    assert(addr == (k * m) * fine + 0) by (nonlinear_arith)
        requires
            addr == coarse * k,
            coarse == fine * m,
    ;
    lemma_fundamental_div_mod_converse(addr, fine, k * m, 0);
}

/// Rounds `addr` up to the next multiple of `align`; `None` when that
/// multiple does not fit in a `usize`.
pub fn next_aligned(addr: usize, align: usize) -> (result: Option<usize>)
    requires
        align > 0,
    ensures
        match result {
            Some(up) => up == align_up(addr as int, align as int),
            None => align_up(addr as int, align as int) > usize::MAX,
        },
{
    let remain: usize = addr % align;
    if remain == 0 {
        Some(addr)
    } else {
        addr.checked_add(align - remain)
    }
}

} // verus!
