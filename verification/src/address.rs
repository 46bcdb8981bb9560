use vstd::prelude::*;
use crate::config::{PAGE_SIZE, VPN_SPACE};

verus! {

/// The value of a virtual address once it is cut to the 39 bits that Sv39 keeps.
pub open spec fn spec_virt_addr(v: u64) -> u64 {
    (v % 0x80_0000_0000) as u64
}

/// Page that holds the address `va`.
pub open spec fn spec_floor(va: u64) -> u64 {
    va / PAGE_SIZE
}

/// First page that starts at or above the address `va`.
pub open spec fn spec_ceil(va: u64) -> int {
    if va == 0 {
        0
    } else {
        (va - 1 + PAGE_SIZE) / PAGE_SIZE as int
    }
}

/// Keeps the low 39 bits of `v`, as the conversion of a raw value into a
/// virtual address does.
pub fn virt_addr(v: u64) -> (r: u64)
    ensures
        r == spec_virt_addr(v),
        r < 0x80_0000_0000,
{
    let r = v & 0x7f_ffff_ffff;
    assert(v & 0x7f_ffff_ffffu64 == v % 0x80_0000_0000u64) by (bit_vector);
    r
}

/// Virtual page number of the page that holds `va`.
pub fn floor(va: u64) -> (r: u64)
    ensures
        r == spec_floor(va),
{
    va / PAGE_SIZE
}

/// Virtual page number of the first page at or above `va`.
pub fn ceil(va: u64) -> (r: u64)
    ensures
        r == spec_ceil(va),
{
    if va == 0 {
        0
    } else {
        (va - 1) / PAGE_SIZE + 1
    }
}

/// Virtual address at which the page `vpn` starts.
pub fn page_start(vpn: u64) -> (r: u64)
    requires
        vpn <= VPN_SPACE,
    ensures
        r == vpn * PAGE_SIZE,
        spec_floor(r) == vpn,
        spec_ceil(r) == vpn,
{
    let r = vpn * PAGE_SIZE;
    assert(spec_floor(r) == vpn && spec_ceil(r) == vpn) by (nonlinear_arith)
        requires
            r == vpn * 4096,
            vpn <= 0x800_0000,
    {}
    r
}

/// A cut 39-bit address lies in the Sv39 page-number space.
pub proof fn lemma_virt_addr_pages(v: u64)
    ensures
        spec_floor(spec_virt_addr(v)) < VPN_SPACE,
        spec_ceil(spec_virt_addr(v)) <= VPN_SPACE,
{
}

} // verus!
