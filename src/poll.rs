//! Touching one byte in every full page of the region, at an offset drawn
//! anew for each round.
use crate::rng::{fill_bytes, next_u64, seeded};
use rand_xorshift::XorShiftRng;
use vstd::arithmetic::div_mod::*;
use vstd::arithmetic::mul::*;
use vstd::prelude::*;

verus! {

/// Number of full pages of `page_size` bytes in `len` bytes.
pub open spec fn full_pages(len: nat, page_size: nat) -> nat {
    len / page_size
}

/// Whether byte `i` of a region of `len` bytes is the one that a round with
/// intra-page `offset` touches: it lies in a full page, at that offset.
pub open spec fn is_touched(len: nat, page_size: nat, offset: nat, i: int) -> bool {
    0 <= i && i / (page_size as int) < full_pages(len, page_size) && i % (page_size as int)
        == offset
}

/// The region after one round at `offset`: each touched byte is XORed with
/// the low byte of the offset, every other byte is kept.
pub open spec fn touched(mem: Seq<u8>, page_size: nat, offset: nat) -> Seq<u8> {
    Seq::new(
        mem.len(),
        |i: int|
            if is_touched(mem.len(), page_size, offset, i) {
                mem[i] ^ (offset as u8)
            } else {
                mem[i]
            },
    )
}

/// The intra-page offset that a drawn value selects.
pub open spec fn offset_of(draw: u64, page_size: nat) -> nat {
    (draw as nat) % page_size
}

/// Number of full pages in `size` bytes: the pages that each round touches.
pub fn num_pages(size: usize, page_size: usize) -> (r: usize)
    requires
        page_size > 0,
    ensures
        r == full_pages(size as nat, page_size as nat),
{
    size / page_size
}

/// Reads and writes one byte in each full page of `memory`: the byte at
/// `page_offset` within the page, XORed with the offset's low byte.
pub fn access_every_page(memory: &mut [u8], page_size: usize, page_offset: usize)
    requires
        page_offset < page_size,
    ensures
        final(memory)@ == touched(old(memory)@, page_size as nat, page_offset as nat),
{
    let ghost orig = memory@;
    let len = memory.len();
    let n = len / page_size;
    let ghost p = page_size as int;
    let ghost off = page_offset as int;
    let mut page: usize = 0;
    while page < n
        invariant
            0 <= off < p,
            p == page_size,
            off == page_offset,
            n == len / page_size,
            len == orig.len(),
            memory@.len() == len,
            page <= n,
            forall|i: int|
                0 <= i < len ==> #[trigger] memory@[i] == if i / p < page && i % p == off {
                    orig[i] ^ (page_offset as u8)
                } else {
                    orig[i]
                },
        decreases n - page,
    {
        proof {
            lemma_mul_is_distributive_add_other_way(p, page as int, 1);
            lemma_mul_inequality(page as int + 1, n as int, p);
            lemma_fundamental_div_mod(len as int, p);
            lemma_mod_pos_bound(len as int, p);
            lemma_mul_is_commutative(n as int, p);
        }
        let idx = page * page_size + page_offset;
        proof {
            lemma_fundamental_div_mod_converse(idx as int, p, page as int, off);
        }
        memory[idx] = memory[idx] ^ (page_offset as u8);
        proof {
            assert forall|i: int| 0 <= i < len implies #[trigger] memory@[i] == if i / p < page
                + 1 && i % p == off {
                orig[i] ^ (page_offset as u8)
            } else {
                orig[i]
            } by {
                if i / p == page as int && i % p == off {
                    lemma_fundamental_div_mod(i, p);
                    lemma_mul_is_commutative(p, page as int);
                }
            }
        }
        page = page + 1;
    }
    assert(memory@ =~= touched(orig, page_size as nat, page_offset as nat));
}


/// Runs one round on a value drawn from the generator: the intra-page offset
/// is the value modulo the page size, and every full page is touched there.
pub fn touch_round(memory: &mut [u8], page_size: usize, draw: u64) -> (offset: usize)
    requires
        page_size > 0,
    ensures
        offset == offset_of(draw, page_size as nat),
        offset < page_size,
        final(memory)@ == touched(old(memory)@, page_size as nat, offset as nat),
{
    let offset = (draw % (page_size as u64)) as usize;
    access_every_page(memory, page_size, offset);
    offset
}

/// The state that the fill and the touch loop share: the page size, fixed
/// once chosen, and the pseudo-random generator.
pub struct Balloon {
    page_size: usize,
    rng: XorShiftRng,
}

impl Balloon {
    /// The page size, which fixes the stride of each round.
    pub closed spec fn spec_page_size(&self) -> nat {
        self.page_size as nat
    }

    /// The page size is positive.
    pub open spec fn wf(&self) -> bool {
        self.spec_page_size() > 0
    }

    /// A balloon of pages of `page_size` bytes whose generator is seeded
    /// from `seed`.
    pub fn new(page_size: usize, seed: u64) -> (r: Balloon)
        requires
            page_size > 0,
        ensures
            r.wf(),
            r.spec_page_size() == page_size,
    {
        Balloon { page_size, rng: seeded(seed) }
    }

    pub fn page_size(&self) -> (r: usize)
        ensures
            r == self.spec_page_size(),
    {
        self.page_size
    }

    /// Overwrites every byte of `memory` with pseudo-random data, so that the
    /// system can neither share nor compress its pages.
    pub fn fill(&mut self, memory: &mut [u8])
        ensures
            final(memory)@.len() == old(memory)@.len(),
            final(self).spec_page_size() == old(self).spec_page_size(),
    {
        fill_bytes(&mut self.rng, memory);
    }

    /// One round of the touch loop: draws a value, and touches every full
    /// page of `memory` at the offset it selects. Returns that offset.
    pub fn poll_round(&mut self, memory: &mut [u8]) -> (offset: usize)
        requires
            old(self).wf(),
        ensures
            final(self).spec_page_size() == old(self).spec_page_size(),
            offset < old(self).spec_page_size(),
            final(memory)@ == touched(old(memory)@, old(self).spec_page_size(), offset as nat),
    {
        let draw = next_u64(&mut self.rng);
        touch_round(memory, self.page_size, draw)
    }
}

/// One round touches each byte at most by one XOR with the offset's low
/// byte: a second round at the same offset gives back the region as it was.
pub proof fn lemma_touch_twice_restores(mem: Seq<u8>, page_size: nat, offset: nat)
    ensures
        touched(touched(mem, page_size, offset), page_size, offset) == mem,
{
    let once = touched(mem, page_size, offset);
    let b = offset as u8;
    assert forall|i: int| 0 <= i < mem.len() implies #[trigger] touched(
        once,
        page_size,
        offset,
    )[i] == mem[i] by {
        let a = mem[i];
        assert(a ^ b ^ b == a) by (bit_vector);
    }
    assert(touched(once, page_size, offset) =~= mem);
}

/// Where the offset's low byte is not zero, a round changes exactly one byte
/// in each full page, the one at the offset, and no other byte.
pub proof fn lemma_touch_changes_touched_bytes(mem: Seq<u8>, page_size: nat, offset: nat)
    requires
        offset as u8 != 0,
    ensures
        forall|i: int|
            0 <= i < mem.len() ==> (#[trigger] touched(mem, page_size, offset)[i] != mem[i]
                <==> is_touched(mem.len(), page_size, offset, i)),
{
    let b = offset as u8;
    assert forall|i: int| 0 <= i < mem.len() implies (#[trigger] touched(
        mem,
        page_size,
        offset,
    )[i] != mem[i] <==> is_touched(mem.len(), page_size, offset, i)) by {
        let a = mem[i];
        assert(b != 0 ==> a ^ b != a) by (bit_vector);
    }
}

/// The bytes that a round touches, in increasing order: `offset` within each
/// full page.
pub open spec fn touched_positions(len: nat, page_size: nat, offset: nat) -> Seq<int> {
    Seq::new(full_pages(len, page_size), |k: int| k * page_size + offset)
}

/// A round over `len` bytes touches `len / page_size` bytes, one in each full
/// page and each in a page of its own; no byte of the tail beyond the last
/// full page is touched.
pub proof fn lemma_touched_positions(len: nat, page_size: nat, offset: nat)
    requires
        offset < page_size,
    ensures
        touched_positions(len, page_size, offset).len() == len / page_size,
        forall|k: int|
            0 <= k < len / page_size ==> #[trigger] touched_positions(len, page_size, offset)[k]
                / (page_size as int) == k,
        forall|i: int|
            is_touched(len, page_size, offset, i) <==> touched_positions(
                len,
                page_size,
                offset,
            ).contains(i),
        forall|i: int|
            (len / page_size) * page_size <= i < len ==> !is_touched(len, page_size, offset, i),
{
    let p = page_size as int;
    let n = (len / page_size) as int;
    let ps = touched_positions(len, page_size, offset);
    assert forall|k: int| 0 <= k < n implies #[trigger] ps[k] / p == k && ps[k] % p == offset
        && ps[k] < len by {
        lemma_fundamental_div_mod_converse(k * p + offset, p, k, offset as int);
        lemma_mul_inequality(k + 1, n, p);
        lemma_mul_is_distributive_add_other_way(p, k, 1);
        lemma_fundamental_div_mod(len as int, p);
        lemma_mod_pos_bound(len as int, p);
        lemma_mul_is_commutative(n, p);
    }
    assert forall|i: int| is_touched(len, page_size, offset, i) implies ps.contains(i) by {
        lemma_fundamental_div_mod(i, p);
        lemma_mul_is_commutative(p, i / p);
        assert(ps[i / p] == i);
    }
    assert forall|i: int| (len / page_size) * page_size <= i < len implies !is_touched(
        len,
        page_size,
        offset,
        i,
    ) by {
        if 0 <= i && i / p < n {
            lemma_fundamental_div_mod(i, p);
            lemma_mod_pos_bound(i, p);
            lemma_mul_inequality(i / p + 1, n, p);
            lemma_mul_is_distributive_add_other_way(p, i / p, 1);
            lemma_mul_is_commutative(n, p);
        }
    }
}

/// Whatever values the generator hands out, each offset that one of them
/// selects lies within a page.
pub proof fn lemma_offset_in_page(draws: Seq<u64>, page_size: nat)
    requires
        page_size > 0,
    ensures
        forall|j: int|
            0 <= j < draws.len() ==> #[trigger] offset_of(draws[j], page_size) < page_size,
{
}

} // verus!
