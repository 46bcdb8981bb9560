use vstd::prelude::*;
use crate::config::{PAGE_SIZE, VPN_SPACE};
use crate::address::{virt_addr, floor, page_start, spec_virt_addr, spec_floor};
use crate::page_table::PhysMemory;
use crate::memory_set::{PageTable, spec_token_root};

verus! {

/// Physical address that the user address `va` reaches through the table
/// `root` (see `PhysMemory::spec_translate_va`), or 0 when the walk finds no
/// last-level node.
pub open spec fn user_pa(mem: PhysMemory, root: u64, va: u64) -> u64 {
    match mem.spec_translate_va(root, va) {
        Some(pa) => pa,
        None => 0,
    }
}

/// Every byte of `[ptr, ptr + len)` lies in a page for which a walk of the
/// table `root` finds a last-level node.
pub open spec fn range_walkable(mem: PhysMemory, root: u64, ptr: u64, len: u64) -> bool {
    forall|k: u64| k < len ==> (#[trigger] mem.spec_translate(root, spec_floor((ptr + k) as u64))) is Some
}

/// Physical addresses of the bytes of the pieces `chunks`, each a start
/// address and a length, one piece after the other.
pub open spec fn chunk_addrs(chunks: Seq<(u64, u64)>) -> Seq<u64>
    decreases chunks.len(),
{
    if chunks.len() == 0 {
        Seq::<u64>::empty()
    } else {
        chunk_addrs(chunks.drop_last()) + Seq::new(chunks.last().1 as nat, |j: int| (chunks.last().0 + j) as u64)
    }
}

/// Physical addresses of the user bytes `[ptr, ptr + n)` through `root`.
pub open spec fn user_addrs(mem: PhysMemory, root: u64, ptr: u64, n: nat) -> Seq<u64> {
    Seq::new(n, |k: int| user_pa(mem, root, (ptr + k) as u64))
}

/// Splits the user range `[ptr, ptr + len)` of the address space named by
/// `token` into pieces that each lie in one page, and gives each piece's
/// physical start address and length.
pub fn translated_byte_buffer(mem: &PhysMemory, token: u64, ptr: u64, len: u64) -> (r: Vec<(u64, u64)>)
    requires
        mem.wf(),
        ptr + len < 0x80_0000_0000,
        range_walkable(*mem, spec_token_root(token), ptr, len),
    ensures
        chunk_addrs(r@) == user_addrs(*mem, spec_token_root(token), ptr, len as nat),
        forall|j: int| 0 <= j < r@.len() ==> 0 < (#[trigger] r@[j]).1 <= PAGE_SIZE,
        forall|j: int| 0 <= j < r@.len() ==> (#[trigger] r@[j]).0 + r@[j].1 < 0x200_0000_0000_0000,
{
    let page_table = PageTable::from_token(token);
    let root = page_table.root_ppn;
    let mut start = ptr;
    let end = ptr + len;
    let mut v: Vec<(u64, u64)> = Vec::new();
    while start < end
        invariant
            mem.wf(),
            ptr <= start <= end,
            end == ptr + len,
            end < 0x80_0000_0000,
            root == spec_token_root(token),
            range_walkable(*mem, root, ptr, len),
            chunk_addrs(v@) == user_addrs(*mem, root, ptr, (start - ptr) as nat),
            forall|j: int| 0 <= j < v@.len() ==> 0 < (#[trigger] v@[j]).1 <= PAGE_SIZE,
            forall|j: int| 0 <= j < v@.len() ==> (#[trigger] v@[j]).0 + v@[j].1 < 0x200_0000_0000_0000,
        decreases end - start,
    {
        let start_va = virt_addr(start);
        let vpn = floor(start_va);
        proof {
            assert(spec_virt_addr(start) == start);
            assert(mem.spec_translate(root, spec_floor((ptr + (start - ptr)) as u64)) is Some);
            mem.lemma_translate_ppn_bound(root, vpn);
            assert(mem.spec_translate(root, vpn) is Some);
        }
        let ppn = match mem.translate(root, vpn) {
            Some(pte) => pte.ppn,
            None => { assert(false); 0 },
        };
        let next = page_start(vpn + 1);
        let end_va = if next < virt_addr(end) { next } else { virt_addr(end) };
        let off = start_va % PAGE_SIZE;
        let piece: u64 = if end_va % PAGE_SIZE == 0 { PAGE_SIZE - off } else { end_va % PAGE_SIZE - off };
        let pa = ppn * PAGE_SIZE + off;
        proof {
            assert(spec_virt_addr(end) == end);
            assert(piece == end_va - start) by (nonlinear_arith)
                requires
                    vpn == start / 4096,
                    next == (vpn + 1) * 4096,
                    end_va == (if next < end { next } else { end }),
                    off == start % 4096,
                    start < end,
                    piece == (if end_va % 4096 == 0 { 4096 - off } else { end_va % 4096 - off }),
            {}
            let old_addrs = chunk_addrs(v@);
            let nv = v@.push((pa, piece));
            assert(nv.drop_last() =~= v@);
            let ps = Seq::new(piece as nat, |q: int| (pa + q) as u64);
            assert forall|j: int| 0 <= j < piece implies
                #[trigger] ps[j] == user_pa(*mem, root, (start + j) as u64) by {
                assert(spec_virt_addr((start + j) as u64) == start + j);
                assert(spec_floor((start + j) as u64) == vpn && (start + j) % 4096 == off + j) by (nonlinear_arith)
                    requires
                        vpn == start / 4096,
                        off == start % 4096,
                        0 <= j < piece,
                        piece == end_va - start,
                        end_va <= (vpn + 1) * 4096,
                {}
            }
            assert(chunk_addrs(nv) =~= user_addrs(*mem, root, ptr, (end_va - ptr) as nat)) by {
                assert forall|k: int| 0 <= k < end_va - ptr implies #[trigger] chunk_addrs(nv)[k]
                    == user_addrs(*mem, root, ptr, (end_va - ptr) as nat)[k] by {
                    if k < start - ptr {
                        assert(chunk_addrs(nv)[k] == old_addrs[k]);
                    } else {
                        let j = k - (start - ptr);
                        assert(chunk_addrs(nv)[k] == ps[j]);
                        assert((ptr + k) as u64 == (start + j) as u64);
                    }
                }
            }
        }
        v.push((pa, piece));
        start = end_va;
    }
    v
}


/// Sum of the lengths of the pieces `chunks`.
pub open spec fn total_len(chunks: Seq<(u64, u64)>) -> int
    decreases chunks.len(),
{
    if chunks.len() == 0 {
        0
    } else {
        total_len(chunks.drop_last()) + chunks.last().1
    }
}

/// The pieces hold as many bytes as their lengths add up to.
pub proof fn lemma_chunk_addrs_len(chunks: Seq<(u64, u64)>)
    ensures
        chunk_addrs(chunks).len() == total_len(chunks),
    decreases chunks.len(),
{
    if chunks.len() > 0 {
        lemma_chunk_addrs_len(chunks.drop_last());
    }
}

/// Taking one more piece appends that piece's bytes.
pub proof fn lemma_chunk_addrs_step(chunks: Seq<(u64, u64)>, j: int)
    requires
        0 <= j < chunks.len(),
    ensures
        chunk_addrs(chunks.subrange(0, j + 1)) == chunk_addrs(chunks.subrange(0, j))
            + Seq::new(chunks[j].1 as nat, |q: int| (chunks[j].0 + q) as u64),
        total_len(chunks.subrange(0, j + 1)) == total_len(chunks.subrange(0, j)) + chunks[j].1,
{
    assert(chunks.subrange(0, j + 1).drop_last() =~= chunks.subrange(0, j));
}

/// The bytes of the first `j` pieces come first among all the bytes.
pub proof fn lemma_chunk_addrs_prefix(chunks: Seq<(u64, u64)>, j: int)
    requires
        0 <= j <= chunks.len(),
    ensures
        chunk_addrs(chunks.subrange(0, j)).len() <= chunk_addrs(chunks).len(),
        total_len(chunks.subrange(0, j)) <= total_len(chunks),
        forall|k: int| 0 <= k < chunk_addrs(chunks.subrange(0, j)).len() ==>
            #[trigger] chunk_addrs(chunks.subrange(0, j))[k] == chunk_addrs(chunks)[k],
    decreases chunks.len() - j,
{
    lemma_chunk_addrs_len(chunks.subrange(0, j));
    lemma_chunk_addrs_len(chunks);
    if j == chunks.len() {
        assert(chunks.subrange(0, j) =~= chunks);
    } else {
        lemma_chunk_addrs_prefix(chunks, j + 1);
        lemma_chunk_addrs_step(chunks, j);
        lemma_chunk_addrs_len(chunks.subrange(0, j + 1));
        let a = chunk_addrs(chunks.subrange(0, j));
        let b = chunk_addrs(chunks.subrange(0, j + 1));
        assert forall|k: int| 0 <= k < a.len() implies #[trigger] a[k] == chunk_addrs(chunks)[k] by {
            assert(b[k] == a[k]);
        }
    }
}

} // verus!
