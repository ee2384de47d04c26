//! The parameters of a deployment, and the layout of the server's storage
//! that follows from them.

use crate::paterson_stockmeyer::PSParams;
use crate::server::{
    is_power_of_two, lemma_slots_fit, CiphertextSlots, EvalPolyDegree, HashTableSize, PsiPlaintext,
};
use crate::utils::lemma_pow256_values;
use vstd::prelude::*;

verus! {

/// Everything that server and client agree on.
#[derive(Debug)]
pub struct PsiParams {
    pub no_of_hash_tables: u8,
    pub ht_size: HashTableSize,
    pub ct_slots: CiphertextSlots,
    pub eval_degree: EvalPolyDegree,
    pub bfv_moduli: Vec<usize>,
    pub hybrid_ksk_moduli: [usize; 3],
    pub bfv_degree: usize,
    pub bfv_plaintext: u64,
    pub psi_pt: PsiPlaintext,
    pub ps_params: PSParams,
    pub source_powers: Vec<usize>,
}

/// The sizes that decide where a pair is stored: how values divide into
/// chunks, the number of slots of a ciphertext, the number of columns of an
/// inner box and the number of rows of a hash table.
#[derive(Clone, Copy, Debug)]
pub struct Layout {
    pub psi_pt: PsiPlaintext,
    pub ct_slots: u32,
    pub columns: u32,
    pub ht_size: u32,
}

impl Layout {
    /// Slots per value.
    pub open spec fn slots(&self) -> int {
        self.psi_pt.slots()
    }

    /// Logical rows of an inner box: the slots of a ciphertext by the slots
    /// per value.
    pub open spec fn rows(&self) -> int {
        self.ct_slots as int / self.slots()
    }

    /// Segments of a big box: the rows of a hash table by the rows of an inner
    /// box, rounded up.
    pub open spec fn segments(&self) -> int {
        (self.ht_size + self.rows() - 1) / self.rows()
    }

    /// The slots of a ciphertext divide evenly into values, an inner box has a
    /// column, a hash table has a row, and the arrays of an inner box fit in
    /// memory.
    pub open spec fn wf(&self) -> bool {
        &&& self.psi_pt.wf()
        &&& self.ct_slots > 0
        &&& self.ct_slots as int % self.slots() == 0
        &&& self.columns >= 1
        &&& self.ct_slots * self.columns <= isize::MAX / 4
        &&& self.ht_size > 0
    }

    /// Decides `wf`.
    pub fn is_valid(&self) -> (b: bool)
        ensures
            b == self.wf(),
    {
        if !self.psi_pt.is_valid() {
            return false;
        }
        proof {
            lemma_slots_fit(self.psi_pt);
        }
        let slots: u32 = self.psi_pt.slots_required();
        assert(self.ct_slots * self.columns <= 0xffff_ffff * 0xffff_ffff) by (nonlinear_arith)
            requires
                self.ct_slots <= 0xffff_ffff,
                self.columns <= 0xffff_ffff,
        ;
        let cells: u64 = self.ct_slots as u64 * self.columns as u64;
        self.ct_slots > 0 && self.ct_slots % slots == 0 && self.columns >= 1 && cells <= (
        isize::MAX / 4) as u64 && self.ht_size > 0
    }

    /// Slots per value.
    pub fn slots_per_value(&self) -> (s: u32)
        requires
            self.wf(),
        ensures
            s == self.slots(),
            1 <= s <= 32,
    {
        proof {
            lemma_slots_fit(self.psi_pt);
        }
        self.psi_pt.slots_required()
    }

    /// Logical rows of an inner box.
    pub fn inner_box_rows(&self) -> (r: u32)
        requires
            self.wf(),
        ensures
            r == self.rows(),
            r >= 1,
            r * self.slots() == self.ct_slots,
    {
        proof {
            lemma_layout_rows(*self);
        }
        self.ct_slots / self.slots_per_value()
    }

    /// Segments of a big box.
    pub fn segments_count(&self) -> (s: u32)
        requires
            self.wf(),
        ensures
            s == self.segments(),
            s >= 1,
    {
        let rows: u32 = self.inner_box_rows();
        let s: u64 = (self.ht_size as u64 + rows as u64 - 1) / rows as u64;
        proof {
            lemma_layout_segments(*self);
        }
        s as u32
    }
}

/// In a well-formed layout the rows of an inner box cover its slots exactly.
pub proof fn lemma_layout_rows(layout: Layout)
    requires
        layout.wf(),
    ensures
        1 <= layout.slots() <= 32,
        layout.rows() >= 1,
        layout.rows() * layout.slots() == layout.ct_slots,
        layout.rows() <= layout.ct_slots,
{
    lemma_slots_fit(layout.psi_pt);
    let n: int = layout.ct_slots as int;
    let s: int = layout.slots();
    vstd::arithmetic::div_mod::lemma_fundamental_div_mod(n, s);
    assert((n / s) * s == n) by (nonlinear_arith)
        requires
            n == s * (n / s) + n % s,
            n % s == 0,
    ;
    assert(n / s >= 1 && n / s <= n) by (nonlinear_arith)
        requires
            (n / s) * s == n,
            n > 0,
            s >= 1,
    ;
}

/// Every index of the hash table falls into a segment.
pub proof fn lemma_layout_segments(layout: Layout)
    requires
        layout.wf(),
    ensures
        1 <= layout.segments() <= layout.ht_size,
        forall|i: int| 0 <= i < layout.ht_size ==> 0 <= #[trigger] (i / layout.rows())
            < layout.segments(),
{
    lemma_layout_rows(layout);
    let r: int = layout.rows();
    let h: int = layout.ht_size as int;
    let s: int = (h + r - 1) / r;
    vstd::arithmetic::div_mod::lemma_fundamental_div_mod(h + r - 1, r);
    vstd::arithmetic::div_mod::lemma_mod_bound(h + r - 1, r);
    assert(1 <= s <= h) by (nonlinear_arith)
        requires
            h + r - 1 == r * s + (h + r - 1) % r,
            0 <= (h + r - 1) % r < r,
            h >= 1,
            r >= 1,
    ;
    assert forall|i: int| 0 <= i < h implies 0 <= #[trigger] (i / r) < s by {
        vstd::arithmetic::div_mod::lemma_fundamental_div_mod(i, r);
        vstd::arithmetic::div_mod::lemma_mod_bound(i, r);
        assert(0 <= i / r < s) by (nonlinear_arith)
            requires
                i == r * (i / r) + i % r,
                0 <= i % r < r,
                h + r - 1 == r * s + (h + r - 1) % r,
                0 <= (h + r - 1) % r < r,
                0 <= i < h,
                r >= 1,
        ;
    }
}

impl PsiParams {
    /// The layout that these parameters give.
    pub open spec fn layout_spec(&self) -> Layout {
        Layout {
            psi_pt: self.psi_pt,
            ct_slots: self.ct_slots.0,
            columns: (self.eval_degree.0 + 1) as u32,
            ht_size: self.ht_size.0,
        }
    }

    /// At most eight hash tables; a well-formed layout; the degree of the
    /// polynomials is the total degree of the evaluation; the scheme has the
    /// slots and the plaintext modulus that the layout speaks of.
    pub open spec fn wf(&self) -> bool {
        &&& 1 <= self.no_of_hash_tables <= 8
        &&& self.eval_degree.0 < u32::MAX
        &&& self.layout_spec().wf()
        &&& self.ps_params.wf()
        &&& self.ps_params.total_degree == self.eval_degree.0
        &&& self.bfv_degree == self.ct_slots.0
        &&& self.bfv_plaintext == self.psi_pt.bfv_pt
    }

    /// The layout that these parameters give.
    pub fn layout(&self) -> (layout: Layout)
        requires
            self.eval_degree.0 < u32::MAX,
        ensures
            layout == self.layout_spec(),
    {
        Layout {
            psi_pt: self.psi_pt,
            ct_slots: self.ct_slots.0,
            columns: self.eval_degree.inner_box_columns(),
            ht_size: self.ht_size.0,
        }
    }
}

impl Default for PsiParams {
    /// Three hash tables of 4096 rows; ciphertexts of 8192 slots; items and
    /// labels of 256 bits in chunks of 16 bits modulo 65537; polynomials of
    /// degree 1304, evaluated with low degree 44 from the source powers
    /// 1, 3, 11, 18, 45 and 225.
    fn default() -> (params: PsiParams)
        ensures
            params.wf(),
            params.no_of_hash_tables == 3,
            params.ht_size.0 == 4096,
            params.ct_slots.0 == 8192,
            params.eval_degree.0 == 1304,
            params.bfv_degree == 8192,
            params.bfv_plaintext == 65537,
            params.psi_pt.psi_pt_bits == 256,
            params.psi_pt.bfv_pt_bits == 16,
            params.psi_pt.bfv_pt == 65537,
            params.ps_params.low_degree == 44,
            params.ps_params.total_degree == 1304,
            params.bfv_moduli@ == seq![50usize, 50, 45],
            params.source_powers@ == seq![1usize, 3, 11, 18, 45, 225],
    {
        let ps_params: PSParams = PSParams::new(44, 1304);
        proof {
            vstd::arithmetic::power2::lemma2_to64();
            assert(is_power_of_two(256)) by {
                assert(256 == vstd::arithmetic::power2::pow2(8));
            }
            assert(is_power_of_two(16)) by {
                assert(16 == vstd::arithmetic::power2::pow2(4));
            }
        }
        let psi_pt: PsiPlaintext = PsiPlaintext::new(256, 16, 65537);
        let eval_degree: EvalPolyDegree = ps_params.eval_degree();
        let mut bfv_moduli: Vec<usize> = Vec::new();
        bfv_moduli.push(50);
        bfv_moduli.push(50);
        bfv_moduli.push(45);
        let mut source_powers: Vec<usize> = Vec::new();
        source_powers.push(1);
        source_powers.push(3);
        source_powers.push(11);
        source_powers.push(18);
        source_powers.push(45);
        source_powers.push(225);
        let params: PsiParams = PsiParams {
            no_of_hash_tables: 3,
            ht_size: HashTableSize(4096),
            ct_slots: CiphertextSlots(8192),
            eval_degree,
            bfv_moduli,
            hybrid_ksk_moduli: [50, 50, 45],
            bfv_degree: 8192,
            bfv_plaintext: 65537,
            psi_pt,
            ps_params,
            source_powers,
        };
        proof {
            lemma_pow256_values();
            assert(params.psi_pt.psi_pt_bytes == 32 && params.psi_pt.bfv_pt_bytes == 2);
            assert(params.psi_pt.slots() == 16);
            assert(params.psi_pt.wf());
            assert(params.layout_spec().ct_slots == 8192 && params.layout_spec().columns == 1305);
            assert(8192int % 16 == 0);
            assert(params.layout_spec().wf());
            assert(params.wf());
            assert(params.bfv_moduli@ =~= seq![50usize, 50, 45]);
            assert(params.source_powers@ =~= seq![1usize, 3, 11, 18, 45, 225]);
        }
        params
    }
}

impl PsiParams {
    /// Decides `wf`.
    pub fn is_valid(&self) -> (b: bool)
        ensures
            b == self.wf(),
    {
        if self.no_of_hash_tables < 1 || self.no_of_hash_tables > 8 {
            return false;
        }
        if self.eval_degree.0 == u32::MAX {
            return false;
        }
        self.layout().is_valid() && self.ps_params.is_valid() && self.ps_params.total_degree
            == self.eval_degree.0 as usize && self.bfv_degree == self.ct_slots.0 as usize
            && self.bfv_plaintext == self.psi_pt.bfv_pt as u64
    }
}

} // verus!
