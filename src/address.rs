use vstd::prelude::*;

verus! {

/// Number of entries in one page-table node.
pub const ENTRIES_PER_TABLE: usize = 512;

/// Physical page numbers that fit in the 44-bit field of an entry.
pub const PPN_LIMIT: u64 = 0x1000_0000_0000;

/// Virtual page numbers are translated by their low 27 bits (three 9-bit indices).
pub const VPN_SPAN: u64 = 0x800_0000;

/// A physical page number: a physical address shifted right by the page bits.
#[derive(Clone, Copy, PartialEq, Eq, Structural, Debug)]
pub struct PhysicalPageNumber(pub u64);

/// A virtual page number: a virtual address shifted right by the page bits.
#[derive(Clone, Copy, PartialEq, Eq, Structural, Debug)]
pub struct VirtualPageNumber(pub u64);

/// The part of a virtual page number that the three-level walk reads.
pub open spec fn vpn_key(vpn: nat) -> nat {
    vpn % (VPN_SPAN as nat)
}

/// Index into the root table.
pub open spec fn level0_index(vpn: nat) -> nat {
    vpn_key(vpn) / 0x40000
}

/// Index into the middle table.
pub open spec fn level1_index(vpn: nat) -> nat {
    (vpn_key(vpn) / 512) % 512
}

/// Index into the leaf table.
pub open spec fn level2_index(vpn: nat) -> nat {
    vpn_key(vpn) % 512
}

/// The walk's path of a virtual page number, split into its three indices.
pub proof fn lemma_indices(vpn: nat)
    ensures
        level0_index(vpn) < 512,
        level1_index(vpn) < 512,
        level2_index(vpn) < 512,
        vpn_key(vpn) / 512 < 0x40000,
        level0_index(vpn) == (vpn_key(vpn) / 512) / 512,
        vpn_key(vpn) / 512 == level0_index(vpn) * 512 + level1_index(vpn),
        vpn_key(vpn) == (vpn_key(vpn) / 512) * 512 + level2_index(vpn),
{
    let k = vpn_key(vpn);
    assert(k < 0x800_0000);
    assert(k / 512 < 0x40000) by (nonlinear_arith)
        requires k < 0x800_0000;
    assert(k / 0x40000 == (k / 512) / 512) by (nonlinear_arith)
        requires k >= 0;
    assert(k / 0x40000 < 512) by (nonlinear_arith)
        requires k < 0x800_0000;
    let q = k / 512;
    assert(q == (q / 512) * 512 + q % 512) by (nonlinear_arith)
        requires q >= 0;
    assert(k == (k / 512) * 512 + k % 512) by (nonlinear_arith)
        requires k >= 0;
}

/// `v` shares its translation with one of the `n` pages from `start` on (its
/// distance from `start`, taken modulo the translated span, is below `n`).
pub open spec fn in_window(start: nat, n: nat, v: nat) -> bool {
    (v - start) % (VPN_SPAN as int) < n
}

proof fn lemma_mod_near(k: int, x: int)
    requires
        -0x800_0000 < x < 0x800_0000,
    ensures
        (0x800_0000 * k + x) % 0x800_0000 == if x >= 0 { x } else { x + 0x800_0000 },
{
    let m: int = 0x800_0000;
    vstd::arithmetic::div_mod::lemma_mod_multiples_vanish(k, x, m);
    if x >= 0 {
        vstd::arithmetic::div_mod::lemma_small_mod(x as nat, m as nat);
    } else {
        vstd::arithmetic::div_mod::lemma_mod_add_multiples_vanish(x, m);
        vstd::arithmetic::div_mod::lemma_small_mod((x + m) as nat, m as nat);
    }
}

/// `v` has the translation slot of `start + i` exactly when it lies at
/// distance `i` from `start`, modulo the translated span.
pub proof fn lemma_window(start: nat, i: nat, v: nat)
    requires
        i < VPN_SPAN,
    ensures
        (vpn_key(v) == vpn_key(start + i)) == ((v - start) % (VPN_SPAN as int) == i),
        in_window(start, i + 1, v) == (in_window(start, i, v) || vpn_key(v) == vpn_key(start + i)),
{
    let m: int = 0x800_0000;
    vstd::arithmetic::div_mod::lemma_fundamental_div_mod(v as int, m);
    vstd::arithmetic::div_mod::lemma_fundamental_div_mod(start as int, m);
    vstd::arithmetic::div_mod::lemma_fundamental_div_mod((start + i) as int, m);
    let r1 = v as int % m;
    let rs = start as int % m;
    let qs = start as int / m;
    let q1 = v as int / m;
    assert(v - start == m * (q1 - qs) + (r1 - rs)) by (nonlinear_arith)
        requires v == m * q1 + r1, start == m * qs + rs;
    lemma_mod_near(q1 - qs, r1 - rs);
    assert(start + i == m * qs + (rs + i)) by (nonlinear_arith)
        requires start == m * qs + rs;
    if rs + i < m {
        lemma_mod_near(qs, rs + i);
    } else {
        assert(start + i == m * (qs + 1) + (rs + i - m)) by (nonlinear_arith)
            requires start + i == m * qs + (rs + i);
        lemma_mod_near(qs + 1, rs + i - m);
    }
}

impl VirtualPageNumber {
    /// The three 9-bit indices that select an entry at each level, root first.
    pub fn levels(&self) -> (r: (usize, usize, usize))
        ensures
            r.0 as nat == level0_index(self.0 as nat),
            r.1 as nat == level1_index(self.0 as nat),
            r.2 as nat == level2_index(self.0 as nat),
    {
        let key = self.0 % VPN_SPAN;
        proof {
            lemma_indices(self.0 as nat);
        }
        ((key / 0x40000) as usize, ((key / 512) % 512) as usize, (key % 512) as usize)
    }
}

} // verus!
