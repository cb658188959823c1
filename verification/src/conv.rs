//! The packed-filter convolution: the panel-major packing transform and the
//! tiled dispatch loop that drives a microkernel over full and partial tiles.

use vstd::prelude::*;
use vstd::arithmetic::div_mod::lemma_fundamental_div_mod;
use vstd::arithmetic::div_mod::lemma_fundamental_div_mod_converse;
use vstd::arithmetic::div_mod::lemma_mod_bound;
use vstd::arithmetic::div_mod::lemma_mod_multiples_basic;
use vstd::arithmetic::mul::lemma_mul_inequality;
use crate::kernel::ConvKer;
use crate::kernel::cell_addr;
use crate::kernel::tile_addr;
use crate::kernel::dot;
use crate::kernel::lemma_rowmajor_unique;

verus! {

/// Rounding `n` up to the next multiple of `d` lands within one period and on
/// a multiple.
pub proof fn lemma_round_up(n: int, d: int)
    requires
        1 <= d,
        0 <= n,
    ensures
        n <= ((n + d - 1) / d) * d,
        ((n + d - 1) / d) * d < n + d,
        (((n + d - 1) / d) * d) % d == 0,
        0 <= (n + d - 1) / d,
{
    lemma_fundamental_div_mod(n + d - 1, d);
    lemma_mod_bound(n + d - 1, d);
    let q = (n + d - 1) / d;
    assert(q * d == d * q) by (nonlinear_arith);
    lemma_mod_multiples_basic(q, d);
    if q < 0 {
        assert(q * d <= -d) by (nonlinear_arith)
            requires
                q <= -1,
                1 <= d,
        ;
    }
}

/// How the panel count relates to the exact and the rounded-up quotient.
pub proof fn lemma_panels_split(co: int, mr: int)
    requires
        1 <= mr,
        1 <= co,
    ensures
        co % mr == 0 ==> (co + mr - 1) / mr == co / mr,
        co % mr != 0 ==> (co + mr - 1) / mr == co / mr + 1,
        (co / mr) * mr + co % mr == co,
        0 <= co % mr < mr,
        0 <= co / mr,
{
    lemma_fundamental_div_mod(co, mr);
    lemma_mod_bound(co, mr);
    let q = co / mr;
    let r = co % mr;
    assert(mr * q == q * mr) by (nonlinear_arith);
    if q < 0 {
        assert(q * mr <= -mr) by (nonlinear_arith)
            requires
                q <= -1,
                1 <= mr,
        ;
    }
    if r == 0 {
        lemma_fundamental_div_mod_converse(co + mr - 1, mr, q, mr - 1);
    } else {
        assert((q + 1) * mr == q * mr + mr) by (nonlinear_arith);
        lemma_fundamental_div_mod_converse(co + mr - 1, mr, q + 1, r - 1);
    }
}

/// Whether `m` lies in the rectangle of cells `[r0, r1) x [c0, c1)` under
/// strides `(rsc, csc)`.
pub open spec fn grid_addr(m: int, rsc: int, csc: int, r0: int, r1: int, c0: int, c1: int) -> bool {
    exists|i: int, j: int| r0 <= i < r1 && c0 <= j < c1 && m == #[trigger] cell_addr(rsc, csc, i, j)
}

/// A smaller rectangle's addresses are among a bigger rectangle's addresses.
pub proof fn lemma_grid_mono(
    m: int,
    rsc: int,
    csc: int,
    r0: int,
    r1: int,
    c0: int,
    c1: int,
    rr0: int,
    rr1: int,
    cc0: int,
    cc1: int,
)
    requires
        grid_addr(m, rsc, csc, r0, r1, c0, c1),
        rr0 <= r0,
        r1 <= rr1,
        cc0 <= c0,
        c1 <= cc1,
    ensures
        grid_addr(m, rsc, csc, rr0, rr1, cc0, cc1),
{
    let (i, j) = choose|i: int, j: int|
        r0 <= i < r1 && c0 <= j < c1 && m == #[trigger] cell_addr(rsc, csc, i, j);
    assert(m == cell_addr(rsc, csc, i, j));
}

/// Any offset inside one `mr * k` panel is the slot of exactly one
/// (row, step) pair.
pub proof fn lemma_slot_decompose(mr: int, k: int, r: int)
    requires
        1 <= mr,
        1 <= k,
        0 <= r < mr * k,
    ensures
        0 <= r % mr < mr,
        0 <= r / mr < k,
        r == cell_addr(1, mr, r % mr, r / mr),
{
    lemma_fundamental_div_mod(r, mr);
    lemma_mod_bound(r, mr);
    assert(mr * (r / mr) == (r / mr) * mr) by (nonlinear_arith);
    if r / mr <= -1 {
        assert((r / mr) * mr <= -mr) by (nonlinear_arith)
            requires
                r / mr <= -1,
                1 <= mr,
        ;
    }
    if r / mr >= k {
        lemma_mul_inequality(k, r / mr, mr);
        assert(mr * k == k * mr) by (nonlinear_arith);
    }
}

/// Splitting an output row into its panel and its row within the panel.
pub proof fn lemma_row_decompose(ia: int, i: int, mr: int)
    requires
        1 <= mr,
        0 <= ia,
        0 <= i < mr,
    ensures
        (ia * mr + i) / mr == ia,
        (ia * mr + i) % mr == i,
{
    lemma_fundamental_div_mod_converse(ia * mr + i, mr, ia, i);
}

/// What std's `format!` returns for the packing summary line: a function of
/// the shown values alone.
pub uninterp spec fn rendered_summary(
    co: usize,
    k: usize,
    centers: usize,
    name: Seq<char>,
    mr: usize,
    nr: usize,
) -> Seq<char>;

/// Relies on std's `format!`: the rendered line depends on the shown values
/// alone.
#[verifier::external_body]
fn render_summary(co: usize, k: usize, centers: usize, name: &str, mr: usize, nr: usize) -> (r:
    String)
    ensures
        r@ == rendered_summary(co, k, centers, name@, mr, nr),
{
    format!("Conv co:{} k:{} centers:{} ({} {}x{})", co, k, centers, name, mr, nr)
}

/// A filter tensor packed for one microkernel choice: the true output-channel
/// count, the contraction length `k` and output width `n` before padding, and
/// the two offset tables, each padded to a multiple of the column-tile width
/// by replicating its last entry.
#[derive(Clone)]
pub struct PackedConv<K: ConvKer> {
    /// The microkernel this packing is laid out for.
    pub ker: K,
    /// Output channel count.
    pub co: usize,
    /// Contraction length (entries of `kernel_offsets` before padding).
    pub k: usize,
    /// Output width (entries of `data_offsets` before padding).
    pub n: usize,
    /// Per-step read offsets within one receptive field, padded.
    pub kernel_offsets: Vec<usize>,
    /// Per-output-position receptive-field origins, padded.
    pub data_offsets: Vec<usize>,
}

impl<K: ConvKer> PackedConv<K> {
    /// Row-tile width of the chosen microkernel.
    pub open spec fn spec_mr(self) -> int {
        self.ker.spec_mr() as int
    }

    /// Column-tile width of the chosen microkernel.
    pub open spec fn spec_nr(self) -> int {
        self.ker.spec_nr() as int
    }

    /// Number of row-panels, the last possibly partial.
    pub open spec fn spec_panels(self) -> int {
        (self.co + self.spec_mr() - 1) / self.spec_mr()
    }

    /// Elements a packed filter buffer must hold.
    pub open spec fn spec_packed_a_len(self) -> int {
        self.spec_panels() * self.spec_mr() * (self.k as int)
    }

    /// Well-formedness: positive extents, tables that begin with their real
    /// entries and end with replicated padding, and sizes that fit the
    /// machine.
    pub open spec fn wf(self) -> bool {
        &&& 1 <= self.co
        &&& 1 <= self.k
        &&& 1 <= self.n
        &&& 1 <= self.spec_mr()
        &&& 1 <= self.spec_nr()
        &&& self.k <= self.kernel_offsets@.len()
        &&& self.kernel_offsets@.len() < self.k + self.spec_nr()
        &&& (self.kernel_offsets@.len() as int) % self.spec_nr() == 0
        &&& forall|t: int|
            self.k <= t < self.kernel_offsets@.len() ==> #[trigger] self.kernel_offsets@[t]
                == self.kernel_offsets@[self.k - 1]
        &&& self.n <= self.data_offsets@.len()
        &&& self.data_offsets@.len() < self.n + self.spec_nr()
        &&& (self.data_offsets@.len() as int) % self.spec_nr() == 0
        &&& forall|x: int|
            self.n <= x < self.data_offsets@.len() ==> #[trigger] self.data_offsets@[x]
                == self.data_offsets@[self.n - 1]
        &&& self.spec_packed_a_len() <= usize::MAX
        &&& self.co + self.spec_mr() <= usize::MAX
        &&& self.spec_mr() * self.spec_nr() <= usize::MAX
    }

    /// Builds a packing descriptor: records the true extents and pads both
    /// offset tables to a multiple of the column-tile width by replicating
    /// their last entries.  Empty tables are a geometry error and are
    /// rejected here, before any packing or dispatch.
    #[verifier::loop_isolation(false)]
    pub fn new(ker: K, co: usize, kernel_offsets: Vec<usize>, data_offsets: Vec<usize>) -> (r:
        PackedConv<K>)
        requires
            1 <= co,
            1 <= kernel_offsets@.len(),
            1 <= data_offsets@.len(),
            kernel_offsets@.len() + ker.spec_nr() <= usize::MAX,
            data_offsets@.len() + ker.spec_nr() <= usize::MAX,
            co + ker.spec_mr() <= usize::MAX,
            ker.spec_mr() * ker.spec_nr() <= usize::MAX,
            ((co + ker.spec_mr() - 1) / (ker.spec_mr() as int)) * ker.spec_mr()
                * kernel_offsets@.len() <= usize::MAX,
        ensures
            r.wf(),
            r.ker == ker,
            r.co == co,
            r.k == kernel_offsets@.len(),
            r.n == data_offsets@.len(),
            forall|t: int| 0 <= t < r.k ==> #[trigger] r.kernel_offsets@[t] == kernel_offsets@[t],
            forall|x: int| 0 <= x < r.n ==> #[trigger] r.data_offsets@[x] == data_offsets@[x],
    {
        proof {
            ker.properties();
        }
        let nr = ker.nr();
        let k = kernel_offsets.len();
        let n = data_offsets.len();
        let mut kernel_offsets = kernel_offsets;
        let mut data_offsets = data_offsets;
        let ghost ko0 = kernel_offsets@;
        let ghost do0 = data_offsets@;
        let ghost ktarget = ((k + nr - 1) / (nr as int)) * (nr as int);
        let ghost dtarget = ((n + nr - 1) / (nr as int)) * (nr as int);
        proof {
            lemma_round_up(k as int, nr as int);
            lemma_round_up(n as int, nr as int);
        }
        while kernel_offsets.len() % nr != 0
            invariant
                k <= kernel_offsets@.len(),
                kernel_offsets@.len() <= ktarget,
                forall|t: int| 0 <= t < k ==> #[trigger] kernel_offsets@[t] == ko0[t],
                forall|t: int|
                    k <= t < kernel_offsets@.len() ==> #[trigger] kernel_offsets@[t] == ko0[k - 1],
            decreases ktarget - kernel_offsets@.len(),
        {
            let last = kernel_offsets[kernel_offsets.len() - 1];
            kernel_offsets.push(last);
        }
        while data_offsets.len() % nr != 0
            invariant
                n <= data_offsets@.len(),
                data_offsets@.len() <= dtarget,
                forall|x: int| 0 <= x < n ==> #[trigger] data_offsets@[x] == do0[x],
                forall|x: int|
                    n <= x < data_offsets@.len() ==> #[trigger] data_offsets@[x] == do0[n - 1],
            decreases dtarget - data_offsets@.len(),
        {
            let last = data_offsets[data_offsets.len() - 1];
            data_offsets.push(last);
        }
        PackedConv { ker, co, k, n, kernel_offsets, data_offsets }
    }

    /// Required byte alignment for a packed filter buffer.
    pub fn packed_a_alignment(&self) -> (r: usize)
        ensures
            r == self.ker.spec_alignment_a(),
            1 <= r,
    {
        self.ker.alignment_bytes_a()
    }

    /// Elements a packed filter buffer must hold: full panels throughout,
    /// the last one padded up to the row-tile width.
    pub fn packed_a_len(&self) -> (r: usize)
        requires
            self.wf(),
        ensures
            r == self.spec_packed_a_len(),
    {
        let mr = self.ker.mr();
        proof {
            lemma_round_up(self.co as int, mr as int);
            lemma_mul_inequality(
                1,
                self.k as int,
                ((self.co + mr - 1) / (mr as int)) * (mr as int),
            );
        }
        (self.co + mr - 1) / mr * mr * self.k
    }

    /// True output-channel count.
    pub fn co(&self) -> (r: usize)
        ensures
            r == self.co,
    {
        self.co
    }

    /// True output width.
    pub fn n(&self) -> (r: usize)
        ensures
            r == self.n,
    {
        self.n
    }

    /// What one slot of the packed buffer holds once packing is done: slot
    /// `p*mr*k + t*mr + i` holds source element `(p*mr + i, t)`, read at
    /// `a_base + (p*mr + i)*rsa + t*csa`, when that row exists, and keeps
    /// its previous value in the padded rows of the last panel.
    pub open spec fn spec_packed_entry(
        self,
        old_pa: Seq<i64>,
        a: Seq<i64>,
        a_base: int,
        rsa: int,
        csa: int,
        m: int,
    ) -> i64 {
        let mr = self.spec_mr();
        let p = m / (mr * (self.k as int));
        let r = m % (mr * (self.k as int));
        let t = r / mr;
        let i = r % mr;
        if p * mr + i < self.co {
            a[a_base + cell_addr(rsa, csa, p * mr + i, t)]
        } else {
            old_pa[m]
        }
    }

    /// The packed buffer as a whole, as a function of the source tensor, its
    /// base and element strides, and the buffer's previous contents.
    pub open spec fn spec_packed_a(
        self,
        old_pa: Seq<i64>,
        a: Seq<i64>,
        a_base: int,
        rsa: int,
        csa: int,
    ) -> Seq<i64> {
        Seq::new(old_pa.len(), |m: int| self.spec_packed_entry(old_pa, a, a_base, rsa, csa, m))
    }

    /// Copies one row-panel: `rows` source rows starting at source row
    /// `(a_base handled by the caller)`, step-major into the destination at
    /// `pa_base`.
    #[verifier::loop_isolation(false)]
    fn pack_panel_a(
        &self,
        pa: &mut Vec<i64>,
        pa_base: usize,
        a: &Vec<i64>,
        a_base: usize,
        rsa: isize,
        csa: isize,
        rows: usize,
    )
        requires
            self.wf(),
            1 <= rows <= self.spec_mr(),
            pa_base + self.spec_mr() * (self.k as int) <= old(pa)@.len(),
            old(pa)@.len() <= usize::MAX,
            old(pa)@.len() <= isize::MAX,
            a@.len() <= isize::MAX,
            forall|jj: int, t: int|
                0 <= jj < rows && 0 <= t < self.k ==> 0 <= a_base + #[trigger] cell_addr(
                    rsa as int,
                    csa as int,
                    jj,
                    t,
                ) < a@.len(),
        ensures
            final(pa)@.len() == old(pa)@.len(),
            forall|jj: int, t: int|
                0 <= jj < rows && 0 <= t < self.k ==> final(pa)@[pa_base + #[trigger] cell_addr(
                    1,
                    self.spec_mr(),
                    jj,
                    t,
                )] == a@[a_base + cell_addr(rsa as int, csa as int, jj, t)],
            forall|m: int|
                0 <= m < final(pa)@.len() && !tile_addr(
                    m,
                    pa_base as int,
                    1,
                    self.spec_mr(),
                    rows as int,
                    self.k as int,
                ) ==> final(pa)@[m] == old(pa)@[m],
    {
        let mr = self.ker.mr();
        let k = self.k;
        let a_len = a.len();
        proof {
            assert forall|jj: int, t: int, jj2: int, t2: int|
                0 <= jj < mr && 0 <= t && 0 <= jj2 < mr && 0 <= t2 && (jj != jj2 || t
                    != t2) implies #[trigger] cell_addr(1, mr as int, jj, t) != #[trigger] cell_addr(
                1,
                mr as int,
                jj2,
                t2,
            ) by {
                if cell_addr(1, mr as int, jj, t) == cell_addr(1, mr as int, jj2, t2) {
                    lemma_rowmajor_unique(t, jj, t2, jj2, mr as int);
                }
            }
            assert forall|jj: int, t: int|
                0 <= jj < mr && 0 <= t < k implies pa_base + #[trigger] cell_addr(
                1,
                mr as int,
                jj,
                t,
            ) < old(pa)@.len() by {
                assert(jj + t * (mr as int) < (mr as int) * (k as int)) by (nonlinear_arith)
                    requires
                        0 <= jj < mr,
                        0 <= t < k,
                ;
            }
        }
        let mut t: usize = 0;
        while t < k
            invariant
                t <= k,
                pa@.len() == old(pa)@.len(),
                forall|jj: int, tt: int|
                    0 <= jj < rows && 0 <= tt < t ==> pa@[pa_base + #[trigger] cell_addr(
                        1,
                        mr as int,
                        jj,
                        tt,
                    )] == a@[a_base + cell_addr(rsa as int, csa as int, jj, tt)],
                forall|m: int|
                    0 <= m < pa@.len() && !tile_addr(
                        m,
                        pa_base as int,
                        1,
                        mr as int,
                        rows as int,
                        t as int,
                    ) ==> pa@[m] == old(pa)@[m],
            decreases k - t,
        {
            let mut jj: usize = 0;
            while jj < rows
                invariant
                    jj <= rows,
                    t < k,
                    pa@.len() == old(pa)@.len(),
                    forall|jj2: int, tt: int|
                        0 <= jj2 < rows && 0 <= tt < t ==> pa@[pa_base + #[trigger] cell_addr(
                            1,
                            mr as int,
                            jj2,
                            tt,
                        )] == a@[a_base + cell_addr(rsa as int, csa as int, jj2, tt)],
                    forall|jj2: int|
                        0 <= jj2 < jj ==> pa@[pa_base + #[trigger] cell_addr(
                            1,
                            mr as int,
                            jj2,
                            t as int,
                        )] == a@[a_base + cell_addr(rsa as int, csa as int, jj2, t as int)],
                    forall|m: int|
                        0 <= m < pa@.len() && !tile_addr(
                            m,
                            pa_base as int,
                            1,
                            mr as int,
                            rows as int,
                            t as int,
                        ) && !tile_addr(
                            m,
                            pa_base + cell_addr(1, mr as int, 0, t as int),
                            1,
                            mr as int,
                            jj as int,
                            1,
                        ) ==> pa@[m] == old(pa)@[m],
                decreases rows - jj,
            {
                proof {
                    assert((t as int) * (mr as int) + jj < (k as int) * (mr as int))
                        by (nonlinear_arith)
                        requires
                            0 <= t < k,
                            0 <= jj < mr,
                    ;
                    assert((mr as int) * (k as int) == (k as int) * (mr as int))
                        by (nonlinear_arith);
                    assert(0 <= a_base + cell_addr(rsa as int, csa as int, 0, 0) < a@.len());
                    assert(0 <= a_base + cell_addr(rsa as int, csa as int, jj as int, 0)
                        < a@.len());
                    assert(0 <= a_base + cell_addr(rsa as int, csa as int, jj as int, t as int)
                        < a@.len());
                    assert((mr as int) <= (mr as int) * (k as int) && (k as int) <= (mr as int) * (
                    k as int)) by (nonlinear_arith)
                        requires
                            1 <= mr,
                            1 <= k,
                    ;
                }
                let slot = pa_base + t * mr + jj;
                let src = (a_base as isize + (jj as isize) * rsa + (t as isize) * csa) as usize;
                let v = a[src];
                pa[slot] = v;
                proof {
                    assert(src == a_base + cell_addr(rsa as int, csa as int, jj as int, t as int));
                    assert(slot == pa_base + cell_addr(1, mr as int, jj as int, t as int));
                    assert forall|jj2: int, tt: int|
                        0 <= jj2 < rows && 0 <= tt < t implies pa@[pa_base + #[trigger] cell_addr(
                        1,
                        mr as int,
                        jj2,
                        tt,
                    )] == a@[a_base + cell_addr(rsa as int, csa as int, jj2, tt)] by {
                        if cell_addr(1, mr as int, jj2, tt) == cell_addr(
                            1,
                            mr as int,
                            jj as int,
                            t as int,
                        ) {
                            lemma_rowmajor_unique(tt, jj2, t as int, jj as int, mr as int);
                        }
                    }
                    assert forall|jj2: int|
                        0 <= jj2 < jj implies pa@[pa_base + #[trigger] cell_addr(
                        1,
                        mr as int,
                        jj2,
                        t as int,
                    )] == a@[a_base + cell_addr(rsa as int, csa as int, jj2, t as int)] by {
                        if cell_addr(1, mr as int, jj2, t as int) == cell_addr(
                            1,
                            mr as int,
                            jj as int,
                            t as int,
                        ) {
                            lemma_rowmajor_unique(t as int, jj2, t as int, jj as int, mr as int);
                        }
                    }
                    assert forall|m: int|
                        0 <= m < pa@.len() && !tile_addr(
                            m,
                            pa_base as int,
                            1,
                            mr as int,
                            rows as int,
                            t as int,
                        ) && !tile_addr(
                            m,
                            pa_base + cell_addr(1, mr as int, 0, t as int),
                            1,
                            mr as int,
                            jj as int + 1,
                            1,
                        ) implies pa@[m] == old(pa)@[m] by {
                        if m == slot {
                            assert(cell_addr(1, mr as int, jj as int, t as int) == cell_addr(
                                1,
                                mr as int,
                                0,
                                t as int,
                            ) + cell_addr(1, mr as int, jj as int, 0));
                            assert(tile_addr(
                                m,
                                pa_base + cell_addr(1, mr as int, 0, t as int),
                                1,
                                mr as int,
                                jj as int + 1,
                                1,
                            ));
                        }
                    }
                }
                jj += 1;
            }
            proof {
                assert forall|m: int|
                    0 <= m < pa@.len() && !tile_addr(
                        m,
                        pa_base as int,
                        1,
                        mr as int,
                        rows as int,
                        t as int + 1,
                    ) implies pa@[m] == old(pa)@[m] by {
                    assert(!tile_addr(
                        m,
                        pa_base as int,
                        1,
                        mr as int,
                        rows as int,
                        t as int,
                    )) by {
                        if tile_addr(m, pa_base as int, 1, mr as int, rows as int, t as int) {
                            let (ii, tt) = choose|ii: int, tt: int|
                                0 <= ii < rows && 0 <= tt < t && m == pa_base
                                    + #[trigger] cell_addr(1, mr as int, ii, tt);
                            assert(tile_addr(
                                m,
                                pa_base as int,
                                1,
                                mr as int,
                                rows as int,
                                t as int + 1,
                            ));
                        }
                    }
                    assert(!tile_addr(
                        m,
                        pa_base + cell_addr(1, mr as int, 0, t as int),
                        1,
                        mr as int,
                        rows as int,
                        1,
                    )) by {
                        if tile_addr(
                            m,
                            pa_base + cell_addr(1, mr as int, 0, t as int),
                            1,
                            mr as int,
                            rows as int,
                            1,
                        ) {
                            let (ii, tt) = choose|ii: int, tt: int|
                                0 <= ii < rows && 0 <= tt < 1 && m == pa_base + cell_addr(
                                    1,
                                    mr as int,
                                    0,
                                    t as int,
                                ) + #[trigger] cell_addr(1, mr as int, ii, tt);
                            assert(m == pa_base + cell_addr(1, mr as int, ii, t as int));
                            assert(tile_addr(
                                m,
                                pa_base as int,
                                1,
                                mr as int,
                                rows as int,
                                t as int + 1,
                            ));
                        }
                    }
                }
            }
            t += 1;
        }
    }

    /// Packs the filter tensor into panel-major layout: all full row-panels,
    /// then one partial panel when the channel count is not a multiple of
    /// the row-tile width.  Source element `(row, t)` sits at
    /// `a_base + row*rsa + t*csa`; the strides may be negative (transposed
    /// packing), and the partial panel's missing rows keep the buffer's
    /// previous contents and are never read by the driver's scatter copies.
    #[verifier::loop_isolation(false)]
    pub fn pack_a(&self, pa: &mut Vec<i64>, a: &Vec<i64>, a_base: usize, rsa: isize, csa: isize)
        requires
            self.wf(),
            old(pa)@.len() == self.spec_packed_a_len(),
            old(pa)@.len() <= isize::MAX,
            a@.len() <= isize::MAX,
            forall|row: int, t: int|
                0 <= row < self.co && 0 <= t < self.k ==> 0 <= a_base + #[trigger] cell_addr(
                    rsa as int,
                    csa as int,
                    row,
                    t,
                ) < a@.len(),
        ensures
            final(pa)@ == self.spec_packed_a(old(pa)@, a@, a_base as int, rsa as int, csa as int),
    {
        let mr = self.ker.mr();
        let k = self.k;
        let co = self.co;
        let a_len = a.len();
        let pa_len = pa.len();
        let panels = co / mr;
        let rowt = co % mr;
        let ghost psize = (mr as int) * (k as int);
        proof {
            lemma_panels_split(co as int, mr as int);
            lemma_round_up(co as int, mr as int);
            lemma_mul_inequality(co as int, self.spec_panels() * (mr as int), k as int);
            lemma_mul_inequality(
                (panels as int) * (mr as int),
                co as int,
                k as int,
            );
            assert(self.spec_panels() * (mr as int) * (k as int) == self.spec_packed_a_len());
        }
        let mut p: usize = 0;
        while p < panels
            invariant
                p <= panels,
                pa@.len() == old(pa)@.len(),
                forall|m: int|
                    0 <= m < pa@.len() && m < p * psize ==> #[trigger] pa@[m]
                        == self.spec_packed_entry(old(pa)@, a@, a_base as int, rsa as int, csa as int, m),
                forall|m: int|
                    0 <= m < pa@.len() && p * psize <= m ==> #[trigger] pa@[m] == old(pa)@[m],
            decreases panels - p,
        {
            proof {
                lemma_mul_inequality(p as int, panels as int, mr as int);
                lemma_mul_inequality(p as int + 1, panels as int, mr as int);
                lemma_mul_inequality((p as int) * (mr as int), co as int, k as int);
                lemma_mul_inequality((p as int + 1) * (mr as int), co as int, k as int);
                assert((p as int + 1) * (mr as int) == (p as int) * (mr as int) + mr)
                    by (nonlinear_arith);
                assert(((p as int) * (mr as int) + mr) * (k as int) == (p as int) * (mr as int) * (
                k as int) + (mr as int) * (k as int)) by (nonlinear_arith);
                assert((p as int) * (mr as int) * (k as int) == (p as int) * psize)
                    by (nonlinear_arith)
                    requires
                        psize == (mr as int) * (k as int),
                ;
                assert(0 <= a_base + cell_addr(rsa as int, csa as int, 0, 0) < a@.len());
                assert(0 <= a_base + cell_addr(rsa as int, csa as int, (p as int) * (mr as int), 0)
                    < a@.len());
                assert((p as int) * (mr as int) <= (p as int) * (mr as int) * (k as int))
                    by (nonlinear_arith)
                    requires
                        1 <= k,
                        0 <= (p as int) * (mr as int),
                ;
            }
            let row0 = p * mr;
            let pa_base = row0 * k;
            let a_pan = (a_base as isize + (row0 as isize) * rsa) as usize;
            proof {
                assert forall|jj: int, t: int|
                    0 <= jj < mr && 0 <= t < k implies 0 <= a_pan + #[trigger] cell_addr(
                    rsa as int,
                    csa as int,
                    jj,
                    t,
                ) < a@.len() by {
                    assert(a_pan + cell_addr(rsa as int, csa as int, jj, t) == a_base + cell_addr(
                        rsa as int,
                        csa as int,
                        row0 + jj,
                        t,
                    )) by (nonlinear_arith)
                        requires
                            a_pan == a_base + (row0 as int) * (rsa as int),
                    ;
                    assert(0 <= a_base + cell_addr(rsa as int, csa as int, row0 + jj, t)
                        < a@.len());
                }
            }
            let ghost pre = pa@;
            self.pack_panel_a(pa, pa_base, a, a_pan, rsa, csa, mr);
            proof {
                assert forall|m: int|
                    0 <= m < pa@.len() && m < (p as int + 1) * psize implies #[trigger] pa@[m]
                        == self.spec_packed_entry(old(pa)@, a@, a_base as int, rsa as int, csa as int, m) by {
                    assert((p as int + 1) * psize == (p as int) * psize + psize)
                        by (nonlinear_arith);
                    if m < (p as int) * psize {
                        assert(!tile_addr(m, pa_base as int, 1, mr as int, mr as int, k as int))
                            by {
                            if tile_addr(m, pa_base as int, 1, mr as int, mr as int, k as int) {
                                let (ii, tt) = choose|ii: int, tt: int|
                                    0 <= ii < mr && 0 <= tt < k && m == pa_base
                                        + #[trigger] cell_addr(1, mr as int, ii, tt);
                                assert(cell_addr(1, mr as int, ii, tt) >= 0) by (nonlinear_arith)
                                    requires
                                        0 <= ii,
                                        0 <= tt,
                                        1 <= mr,
                                ;
                            }
                        }
                        assert(pa@[m] == pre[m]);
                    } else {
                        let r = m - pa_base;
                        lemma_slot_decompose(mr as int, k as int, r);
                        let ii = r % (mr as int);
                        let tt = r / (mr as int);
                        assert(m == pa_base + cell_addr(1, mr as int, ii, tt));
                        assert(pa@[m] == a@[a_pan + cell_addr(rsa as int, csa as int, ii, tt)]);
                        assert(a_pan + cell_addr(rsa as int, csa as int, ii, tt) == a_base
                            + cell_addr(rsa as int, csa as int, row0 + ii, tt))
                            by (nonlinear_arith)
                            requires
                                a_pan == a_base + (row0 as int) * (rsa as int),
                        ;
                        lemma_fundamental_div_mod_converse(m, psize, p as int, r);
                        lemma_fundamental_div_mod_converse(r, mr as int, tt, ii);
                        assert(m / psize == p && m % psize == r);
                        assert((m / psize) * (mr as int) + (m % psize) % (mr as int) == row0 + ii);
                        assert(row0 + ii < co);
                        assert(self.spec_packed_entry(
                            old(pa)@,
                            a@,
                            a_base as int,
                            rsa as int,
                            csa as int,
                            m,
                        ) == a@[a_base + cell_addr(rsa as int, csa as int, row0 + ii, tt)]);
                    }
                }
                assert forall|m: int|
                    0 <= m < pa@.len() && (p as int + 1) * psize <= m implies #[trigger] pa@[m]
                        == old(pa)@[m] by {
                    assert((p as int + 1) * psize == (p as int) * psize + psize)
                        by (nonlinear_arith);
                    assert(!tile_addr(m, pa_base as int, 1, mr as int, mr as int, k as int)) by {
                        if tile_addr(m, pa_base as int, 1, mr as int, mr as int, k as int) {
                            let (ii, tt) = choose|ii: int, tt: int|
                                0 <= ii < mr && 0 <= tt < k && m == pa_base + #[trigger] cell_addr(
                                    1,
                                    mr as int,
                                    ii,
                                    tt,
                                );
                            assert(cell_addr(1, mr as int, ii, tt) < psize) by (nonlinear_arith)
                                requires
                                    0 <= ii < mr,
                                    0 <= tt < k,
                                    psize == (mr as int) * (k as int),
                            ;
                        }
                    }
                    assert(pa@[m] == pre[m]);
                }
            }
            p += 1;
        }
        if rowt != 0 {
            proof {
                lemma_mul_inequality((panels as int) * (mr as int), co as int, k as int);
                assert((panels as int + 1) * (mr as int) == (panels as int) * (mr as int) + mr)
                    by (nonlinear_arith);
                assert(((panels as int) * (mr as int) + mr) * (k as int) == (panels as int) * (
                mr as int) * (k as int) + (mr as int) * (k as int)) by (nonlinear_arith);
                assert((panels as int) * (mr as int) * (k as int) == (panels as int) * psize)
                    by (nonlinear_arith)
                    requires
                        psize == (mr as int) * (k as int),
                ;
                assert((panels as int + 1) * (mr as int) * (k as int) == (panels as int + 1)
                    * psize) by (nonlinear_arith)
                    requires
                        psize == (mr as int) * (k as int),
                ;
                assert(self.spec_panels() == panels as int + 1);
                assert((panels as int + 1) * (mr as int) * (k as int)
                    == self.spec_packed_a_len()) by (nonlinear_arith)
                    requires
                        self.spec_panels() == panels as int + 1,
                        self.spec_packed_a_len() == self.spec_panels() * (mr as int) * (k as int),
                ;
                assert(0 <= a_base + cell_addr(rsa as int, csa as int, 0, 0) < a@.len());
                assert(0 <= a_base + cell_addr(
                    rsa as int,
                    csa as int,
                    (panels as int) * (mr as int),
                    0,
                ) < a@.len());
                assert((panels as int) * (mr as int) <= (panels as int) * (mr as int) * (k as int))
                    by (nonlinear_arith)
                    requires
                        1 <= k,
                        0 <= (panels as int) * (mr as int),
                ;
            }
            let row0 = panels * mr;
            let pa_base = row0 * k;
            let a_pan = (a_base as isize + (row0 as isize) * rsa) as usize;
            proof {
                assert forall|jj: int, t: int|
                    0 <= jj < rowt && 0 <= t < k implies 0 <= a_pan + #[trigger] cell_addr(
                    rsa as int,
                    csa as int,
                    jj,
                    t,
                ) < a@.len() by {
                    assert(a_pan + cell_addr(rsa as int, csa as int, jj, t) == a_base + cell_addr(
                        rsa as int,
                        csa as int,
                        row0 + jj,
                        t,
                    )) by (nonlinear_arith)
                        requires
                            a_pan == a_base + (row0 as int) * (rsa as int),
                    ;
                    assert(0 <= a_base + cell_addr(rsa as int, csa as int, row0 + jj, t)
                        < a@.len());
                }
            }
            let ghost pre = pa@;
            self.pack_panel_a(pa, pa_base, a, a_pan, rsa, csa, rowt);
            proof {
                assert forall|m: int|
                    0 <= m < pa@.len() implies #[trigger] pa@[m] == self.spec_packed_entry(
                    old(pa)@,
                    a@,
                    a_base as int,
                    rsa as int,
                    csa as int,
                    m,
                ) by {
                    if m < (panels as int) * psize {
                        assert(!tile_addr(m, pa_base as int, 1, mr as int, rowt as int, k as int))
                            by {
                            if tile_addr(m, pa_base as int, 1, mr as int, rowt as int, k as int) {
                                let (ii, tt) = choose|ii: int, tt: int|
                                    0 <= ii < rowt && 0 <= tt < k && m == pa_base
                                        + #[trigger] cell_addr(1, mr as int, ii, tt);
                                assert(cell_addr(1, mr as int, ii, tt) >= 0) by (nonlinear_arith)
                                    requires
                                        0 <= ii,
                                        0 <= tt,
                                        1 <= mr,
                                ;
                            }
                        }
                        assert(pa@[m] == pre[m]);
                    } else {
                        let r = m - pa_base;
                        lemma_slot_decompose(mr as int, k as int, r);
                        let ii = r % (mr as int);
                        let tt = r / (mr as int);
                        assert(m == pa_base + cell_addr(1, mr as int, ii, tt));
                        lemma_fundamental_div_mod_converse(m, psize, panels as int, r);
                        lemma_fundamental_div_mod_converse(r, mr as int, tt, ii);
                        if ii < rowt {
                            assert(pa@[m] == a@[a_pan + cell_addr(
                                rsa as int,
                                csa as int,
                                ii,
                                tt,
                            )]);
                            assert(a_pan + cell_addr(rsa as int, csa as int, ii, tt) == a_base
                                + cell_addr(rsa as int, csa as int, row0 + ii, tt))
                                by (nonlinear_arith)
                                requires
                                    a_pan == a_base + (row0 as int) * (rsa as int),
                            ;
                            assert(row0 + ii < co);
                        } else {
                            assert(!tile_addr(
                                m,
                                pa_base as int,
                                1,
                                mr as int,
                                rowt as int,
                                k as int,
                            )) by {
                                if tile_addr(
                                    m,
                                    pa_base as int,
                                    1,
                                    mr as int,
                                    rowt as int,
                                    k as int,
                                ) {
                                    let (i2, t2) = choose|i2: int, t2: int|
                                        0 <= i2 < rowt && 0 <= t2 < k && m == pa_base
                                            + #[trigger] cell_addr(1, mr as int, i2, t2);
                                    lemma_rowmajor_unique(t2, i2, tt, ii, mr as int);
                                }
                            }
                            assert(pa@[m] == pre[m]);
                            assert(row0 + ii >= co);
                        }
                    }
                }
            }
        }
        proof {
            if rowt == 0 {
                assert((panels as int) * psize == self.spec_packed_a_len())
                    by (nonlinear_arith)
                    requires
                        psize == (mr as int) * (k as int),
                        self.spec_panels() == panels as int,
                        self.spec_packed_a_len() == self.spec_panels() * (mr as int) * (k as int),
                ;
            }
            assert(pa@ =~= self.spec_packed_a(old(pa)@, a@, a_base as int, rsa as int, csa as int));
        }
    }

    /// What the driver writes at output cell `(ico, x)`: the dot product of
    /// packed row `ico` (row `ico % mr` of panel `ico / mr`) with the
    /// receptive field that begins at `data_offsets[x]`.
    pub open spec fn conv_cell(self, pa: Seq<i64>, b: Seq<i64>, ico: int, x: int) -> i64 {
        dot(
            pa,
            (ico / self.spec_mr()) * (self.spec_mr() * (self.k as int)),
            self.spec_mr(),
            ico % self.spec_mr(),
            self.kernel_offsets@,
            b,
            self.data_offsets@[x] as int,
            self.k as int,
        )
    }

    /// Runs the microkernel into the scratch tile for one partial tile and
    /// scatter-copies exactly the real `rows x cols` sub-rectangle into the
    /// destination; the scratch tile's padded remainder never leaves it.
    #[verifier::loop_isolation(false)]
    fn tail_tile(
        &self,
        pa: &Vec<i64>,
        pa_base: usize,
        bt_base: usize,
        b: &Vec<i64>,
        c: &mut Vec<i64>,
        tmp: &mut Vec<i64>,
        row0: usize,
        col0: usize,
        rows: usize,
        cols: usize,
        rsc: usize,
        csc: usize,
    )
        requires
            self.wf(),
            old(tmp)@.len() == self.spec_mr() * self.spec_nr(),
            old(c)@.len() <= usize::MAX,
            pa@.len() <= usize::MAX,
            1 <= rows <= self.spec_mr(),
            1 <= cols <= self.spec_nr(),
            row0 + rows <= usize::MAX,
            col0 + cols <= usize::MAX,
            pa_base + self.spec_mr() * (self.k as int) <= pa@.len(),
            bt_base + self.spec_nr() <= self.data_offsets@.len(),
            forall|j: int, t: int|
                0 <= j < self.spec_nr() && 0 <= t < self.k ==> #[trigger] self.data_offsets@[
                    bt_base + j] + #[trigger] self.kernel_offsets@[t] < b@.len(),
            forall|i: int, j: int|
                row0 <= i < row0 + rows && col0 <= j < col0 + cols ==> #[trigger] cell_addr(
                    rsc as int,
                    csc as int,
                    i,
                    j,
                ) < old(c)@.len(),
            forall|i: int, j: int, i2: int, j2: int|
                row0 <= i < row0 + rows && col0 <= j < col0 + cols && row0 <= i2 < row0 + rows
                    && col0 <= j2 < col0 + cols && (i != i2 || j != j2) ==> #[trigger] cell_addr(
                    rsc as int,
                    csc as int,
                    i,
                    j,
                ) != #[trigger] cell_addr(rsc as int, csc as int, i2, j2),
        ensures
            final(c)@.len() == old(c)@.len(),
            final(tmp)@.len() == old(tmp)@.len(),
            forall|i: int, j: int|
                row0 <= i < row0 + rows && col0 <= j < col0 + cols ==> final(c)@[
                    #[trigger] cell_addr(rsc as int, csc as int, i, j)] == dot(
                    pa@,
                    pa_base as int,
                    self.spec_mr(),
                    i - row0,
                    self.kernel_offsets@,
                    b@,
                    self.data_offsets@[bt_base + (j - col0)] as int,
                    self.k as int,
                ),
            forall|m: int|
                0 <= m < final(c)@.len() && !grid_addr(
                    m,
                    rsc as int,
                    csc as int,
                    row0 as int,
                    row0 + rows,
                    col0 as int,
                    col0 + cols,
                ) ==> final(c)@[m] == old(c)@[m],
    {
        let mr = self.ker.mr();
        let nr = self.ker.nr();
        let k = self.k;
        let c_len = c.len();
        proof {
            assert forall|i: int, j: int|
                0 <= i < mr && 0 <= j < nr implies 0 + #[trigger] cell_addr(nr as int, 1, i, j)
                    < old(tmp)@.len() by {
                assert(i * (nr as int) + j < (mr as int) * (nr as int)) by (nonlinear_arith)
                    requires
                        0 <= i < mr,
                        0 <= j < nr,
                ;
            }
            assert forall|i: int, j: int, i2: int, j2: int|
                0 <= i < mr && 0 <= j < nr && 0 <= i2 < mr && 0 <= j2 < nr && (i != i2 || j
                    != j2) implies #[trigger] cell_addr(nr as int, 1, i, j)
                    != #[trigger] cell_addr(nr as int, 1, i2, j2) by {
                if cell_addr(nr as int, 1, i, j) == cell_addr(nr as int, 1, i2, j2) {
                    lemma_rowmajor_unique(i, j, i2, j2, nr as int);
                }
            }
        }
        self.ker.kernel(
            k,
            pa,
            pa_base,
            &self.data_offsets,
            bt_base,
            &self.kernel_offsets,
            b,
            tmp,
            0,
            nr,
            1,
        );
        let mut y: usize = 0;
        while y < rows
            invariant
                y <= rows,
                c@.len() == old(c)@.len(),
                tmp@.len() == old(tmp)@.len(),
                forall|i: int, j: int|
                    0 <= i < mr && 0 <= j < nr ==> tmp@[#[trigger] cell_addr(nr as int, 1, i, j)]
                        == dot(
                        pa@,
                        pa_base as int,
                        mr as int,
                        i,
                        self.kernel_offsets@,
                        b@,
                        self.data_offsets@[bt_base + j] as int,
                        k as int,
                    ),
                forall|i: int, j: int|
                    row0 <= i < row0 + y && col0 <= j < col0 + cols ==> c@[#[trigger] cell_addr(
                        rsc as int,
                        csc as int,
                        i,
                        j,
                    )] == dot(
                        pa@,
                        pa_base as int,
                        mr as int,
                        i - row0,
                        self.kernel_offsets@,
                        b@,
                        self.data_offsets@[bt_base + (j - col0)] as int,
                        k as int,
                    ),
                forall|m: int|
                    0 <= m < c@.len() && !grid_addr(
                        m,
                        rsc as int,
                        csc as int,
                        row0 as int,
                        row0 + y,
                        col0 as int,
                        col0 + cols,
                    ) ==> c@[m] == old(c)@[m],
            decreases rows - y,
        {
            let row = row0 + y;
            let mut x: usize = 0;
            while x < cols
                invariant
                    x <= cols,
                    y < rows,
                    row == row0 + y,
                    c@.len() == old(c)@.len(),
                    tmp@.len() == old(tmp)@.len(),
                    forall|i: int, j: int|
                        0 <= i < mr && 0 <= j < nr ==> tmp@[#[trigger] cell_addr(
                            nr as int,
                            1,
                            i,
                            j,
                        )] == dot(
                            pa@,
                            pa_base as int,
                            mr as int,
                            i,
                            self.kernel_offsets@,
                            b@,
                            self.data_offsets@[bt_base + j] as int,
                            k as int,
                        ),
                    forall|i: int, j: int|
                        row0 <= i < row0 + y && col0 <= j < col0 + cols ==> c@[
                            #[trigger] cell_addr(rsc as int, csc as int, i, j)] == dot(
                            pa@,
                            pa_base as int,
                            mr as int,
                            i - row0,
                            self.kernel_offsets@,
                            b@,
                            self.data_offsets@[bt_base + (j - col0)] as int,
                            k as int,
                        ),
                    forall|j: int|
                        col0 <= j < col0 + x ==> c@[#[trigger] cell_addr(
                            rsc as int,
                            csc as int,
                            row as int,
                            j,
                        )] == dot(
                            pa@,
                            pa_base as int,
                            mr as int,
                            y as int,
                            self.kernel_offsets@,
                            b@,
                            self.data_offsets@[bt_base + (j - col0)] as int,
                            k as int,
                        ),
                    forall|m: int|
                        0 <= m < c@.len() && !grid_addr(
                            m,
                            rsc as int,
                            csc as int,
                            row0 as int,
                            row0 + y,
                            col0 as int,
                            col0 + cols,
                        ) && !grid_addr(
                            m,
                            rsc as int,
                            csc as int,
                            row as int,
                            row as int + 1,
                            col0 as int,
                            col0 + x,
                        ) ==> c@[m] == old(c)@[m],
                decreases cols - x,
            {
                let col = col0 + x;
                proof {
                    assert(cell_addr(rsc as int, csc as int, row as int, col as int) < c@.len());
                    assert(0 + cell_addr(nr as int, 1, y as int, x as int) < tmp@.len());
                    assert((row as int) * (rsc as int) >= 0) by (nonlinear_arith);
                    assert((col as int) * (csc as int) >= 0) by (nonlinear_arith);
                    assert((y as int) * (nr as int) >= 0) by (nonlinear_arith);
                }
                let v = tmp[y * nr + x];
                let idx = row * rsc + col * csc;
                c[idx] = v;
                proof {
                    assert(idx == cell_addr(rsc as int, csc as int, row as int, col as int));
                    assert(v == tmp@[cell_addr(nr as int, 1, y as int, x as int)]);
                    assert forall|m: int|
                        0 <= m < c@.len() && !grid_addr(
                            m,
                            rsc as int,
                            csc as int,
                            row0 as int,
                            row0 + y,
                            col0 as int,
                            col0 + cols,
                        ) && !grid_addr(
                            m,
                            rsc as int,
                            csc as int,
                            row as int,
                            row as int + 1,
                            col0 as int,
                            col0 + x + 1,
                        ) implies c@[m] == old(c)@[m] by {
                        if m == idx {
                            assert(grid_addr(
                                m,
                                rsc as int,
                                csc as int,
                                row as int,
                                row as int + 1,
                                col0 as int,
                                col0 + x + 1,
                            ));
                        }
                    }
                }
                x += 1;
            }
            proof {
                assert forall|i: int, j: int|
                    row0 <= i < row0 + y + 1 && col0 <= j < col0 + cols implies c@[
                        #[trigger] cell_addr(rsc as int, csc as int, i, j)] == dot(
                    pa@,
                    pa_base as int,
                    mr as int,
                    i - row0,
                    self.kernel_offsets@,
                    b@,
                    self.data_offsets@[bt_base + (j - col0)] as int,
                    k as int,
                ) by {
                    if i == row as int {
                        assert(c@[cell_addr(rsc as int, csc as int, row as int, j)] == dot(
                            pa@,
                            pa_base as int,
                            mr as int,
                            y as int,
                            self.kernel_offsets@,
                            b@,
                            self.data_offsets@[bt_base + (j - col0)] as int,
                            k as int,
                        ));
                    }
                }
                assert forall|m: int|
                    0 <= m < c@.len() && !grid_addr(
                        m,
                        rsc as int,
                        csc as int,
                        row0 as int,
                        row0 + y + 1,
                        col0 as int,
                        col0 + cols,
                    ) implies c@[m] == old(c)@[m] by {
                    assert(!grid_addr(
                        m,
                        rsc as int,
                        csc as int,
                        row0 as int,
                        row0 as int + y,
                        col0 as int,
                        col0 + cols,
                    )) by {
                        if grid_addr(
                            m,
                            rsc as int,
                            csc as int,
                            row0 as int,
                            row0 as int + y,
                            col0 as int,
                            col0 + cols,
                        ) {
                            lemma_grid_mono(
                                m,
                                rsc as int,
                                csc as int,
                                row0 as int,
                                row0 as int + y,
                                col0 as int,
                                col0 + cols,
                                row0 as int,
                                row0 as int + y + 1,
                                col0 as int,
                                col0 + cols,
                            );
                        }
                    }
                    assert(!grid_addr(
                        m,
                        rsc as int,
                        csc as int,
                        row as int,
                        row as int + 1,
                        col0 as int,
                        col0 + cols,
                    )) by {
                        if grid_addr(
                            m,
                            rsc as int,
                            csc as int,
                            row as int,
                            row as int + 1,
                            col0 as int,
                            col0 + cols,
                        ) {
                            lemma_grid_mono(
                                m,
                                rsc as int,
                                csc as int,
                                row as int,
                                row as int + 1,
                                col0 as int,
                                col0 + cols,
                                row0 as int,
                                row0 as int + y + 1,
                                col0 as int,
                                col0 + cols,
                            );
                        }
                    }
                }
            }
            y += 1;
        }
    }

    /// The dispatch loop.  Walks filter row-panels and output-column panels:
    /// full tiles go straight to the destination, a column tail, a row tail
    /// and the corner go through the scratch tile, from which only the real
    /// sub-rectangle is copied out.  Every real output cell is written
    /// exactly once with its dot product; no other cell of the destination
    /// is touched.
    #[verifier::loop_isolation(false)]
    #[verifier::rlimit(50)]
    pub fn conv(&self, pa: &Vec<i64>, b: &Vec<i64>, c: &mut Vec<i64>, rsc: usize, csc: usize)
        requires
            self.wf(),
            self.spec_packed_a_len() <= pa@.len(),
            forall|x: int, t: int|
                0 <= x < self.data_offsets@.len() && 0 <= t < self.k ==> #[trigger] self
                    .data_offsets@[x] + #[trigger] self.kernel_offsets@[t] < b@.len(),
            forall|i: int, x: int|
                0 <= i < self.co && 0 <= x < self.n ==> #[trigger] cell_addr(
                    rsc as int,
                    csc as int,
                    i,
                    x,
                ) < old(c)@.len(),
            forall|i: int, x: int, i2: int, x2: int|
                0 <= i < self.co && 0 <= x < self.n && 0 <= i2 < self.co && 0 <= x2 < self.n && (i
                    != i2 || x != x2) ==> #[trigger] cell_addr(rsc as int, csc as int, i, x)
                    != #[trigger] cell_addr(rsc as int, csc as int, i2, x2),
        ensures
            final(c)@.len() == old(c)@.len(),
            forall|i: int, x: int|
                0 <= i < self.co && 0 <= x < self.n ==> final(c)@[#[trigger] cell_addr(
                    rsc as int,
                    csc as int,
                    i,
                    x,
                )] == self.conv_cell(pa@, b@, i, x),
            forall|m: int|
                0 <= m < final(c)@.len() && !grid_addr(
                    m,
                    rsc as int,
                    csc as int,
                    0,
                    self.co as int,
                    0,
                    self.n as int,
                ) ==> final(c)@[m] == old(c)@[m],
    {
        let mr = self.ker.mr();
        let nr = self.ker.nr();
        let k = self.k;
        let co = self.co;
        let n = self.n;
        let c_len = c.len();
        let pa_len = pa.len();
        let dlen = self.data_offsets.len();
        let klen = self.kernel_offsets.len();
        let mut tmp: Vec<i64> = Vec::new();
        let tsize = mr * nr;
        while tmp.len() < tsize
            invariant
                tmp@.len() <= tsize,
            decreases tsize - tmp@.len(),
        {
            tmp.push(0i64);
        }
        let panels = co / mr;
        let colp = n / nr;
        let colt = n % nr;
        let rowt = co % mr;
        let ghost psize = (mr as int) * (k as int);
        proof {
            lemma_panels_split(co as int, mr as int);
            lemma_panels_split(n as int, nr as int);
            lemma_round_up(co as int, mr as int);
            lemma_mul_inequality(co as int, self.spec_panels() * (mr as int), k as int);
            assert(self.spec_panels() * (mr as int) * (k as int) == self.spec_packed_a_len());
            if colt != 0 {
                let q = (dlen as int) / (nr as int);
                lemma_fundamental_div_mod(dlen as int, nr as int);
                assert((nr as int) * q == q * (nr as int)) by (nonlinear_arith);
                if q <= colp as int {
                    lemma_mul_inequality(q, colp as int, nr as int);
                }
                lemma_mul_inequality(colp as int + 1, q, nr as int);
                assert((colp as int + 1) * (nr as int) == (colp as int) * (nr as int) + nr)
                    by (nonlinear_arith);
            }
        }
        let mut ia: usize = 0;
        while ia < panels
            invariant
                ia <= panels,
                c@.len() == old(c)@.len(),
                tmp@.len() == (mr as int) * (nr as int),
                forall|i: int, x: int|
                    0 <= i < (ia as int) * (mr as int) && 0 <= x < n ==> c@[#[trigger] cell_addr(
                        rsc as int,
                        csc as int,
                        i,
                        x,
                    )] == self.conv_cell(pa@, b@, i, x),
                forall|m: int|
                    0 <= m < c@.len() && !grid_addr(
                        m,
                        rsc as int,
                        csc as int,
                        0,
                        (ia as int) * (mr as int),
                        0,
                        n as int,
                    ) ==> c@[m] == old(c)@[m],
            decreases panels - ia,
        {
            proof {
                lemma_mul_inequality(ia as int, panels as int, mr as int);
                lemma_mul_inequality(ia as int + 1, panels as int, mr as int);
                assert((ia as int + 1) * (mr as int) == (ia as int) * (mr as int) + mr)
                    by (nonlinear_arith);
                lemma_mul_inequality((ia as int + 1) * (mr as int), co as int, k as int);
                assert(((ia as int) * (mr as int) + mr) * (k as int) == (ia as int) * (mr as int)
                    * (k as int) + (mr as int) * (k as int)) by (nonlinear_arith);
            }
            let row0 = ia * mr;
            let pa_base = row0 * k;
            let ghost prow0 = row0 as int;
            proof {
                assert(pa_base + (mr as int) * (k as int) <= self.spec_packed_a_len());
            }
            let mut ib: usize = 0;
            while ib < colp
                invariant
                    ib <= colp,
                    c@.len() == old(c)@.len(),
                    tmp@.len() == (mr as int) * (nr as int),
                    forall|i: int, x: int|
                        0 <= i < prow0 && 0 <= x < n ==> c@[#[trigger] cell_addr(
                            rsc as int,
                            csc as int,
                            i,
                            x,
                        )] == self.conv_cell(pa@, b@, i, x),
                    forall|i: int, x: int|
                        prow0 <= i < prow0 + mr && 0 <= x < (ib as int) * (nr as int) ==> c@[
                            #[trigger] cell_addr(rsc as int, csc as int, i, x)]
                            == self.conv_cell(pa@, b@, i, x),
                    forall|m: int|
                        0 <= m < c@.len() && !grid_addr(
                            m,
                            rsc as int,
                            csc as int,
                            0,
                            prow0,
                            0,
                            n as int,
                        ) && !grid_addr(
                            m,
                            rsc as int,
                            csc as int,
                            prow0,
                            prow0 + mr,
                            0,
                            (ib as int) * (nr as int),
                        ) ==> c@[m] == old(c)@[m],
                decreases colp - ib,
            {
                proof {
                    lemma_mul_inequality(ib as int, colp as int, nr as int);
                    lemma_mul_inequality(ib as int + 1, colp as int, nr as int);
                    assert((ib as int + 1) * (nr as int) == (ib as int) * (nr as int) + nr)
                        by (nonlinear_arith);
                }
                let col0 = ib * nr;
                proof {
                    assert((row0 as int) * (rsc as int) >= 0) by (nonlinear_arith);
                    assert((col0 as int) * (csc as int) >= 0) by (nonlinear_arith);
                    assert(cell_addr(rsc as int, csc as int, row0 as int, col0 as int)
                        < c@.len());
                }
                let c_base = row0 * rsc + col0 * csc;
                proof {
                    assert forall|i: int, j: int|
                        0 <= i < mr && 0 <= j < nr implies c_base + #[trigger] cell_addr(
                        rsc as int,
                        csc as int,
                        i,
                        j,
                    ) < c@.len() by {
                        assert(c_base + cell_addr(rsc as int, csc as int, i, j) == cell_addr(
                            rsc as int,
                            csc as int,
                            (row0 as int) + i,
                            (col0 as int) + j,
                        )) by (nonlinear_arith)
                            requires
                                c_base == (row0 as int) * (rsc as int) + (col0 as int) * (
                                csc as int),
                        ;
                        assert(cell_addr(rsc as int, csc as int, row0 + i, col0 + j) < c@.len());
                    }
                    assert forall|i: int, j: int, i2: int, j2: int|
                        0 <= i < mr && 0 <= j < nr && 0 <= i2 < mr && 0 <= j2 < nr && (i != i2 || j
                            != j2) implies #[trigger] cell_addr(rsc as int, csc as int, i, j)
                            != #[trigger] cell_addr(rsc as int, csc as int, i2, j2) by {
                        assert(c_base + cell_addr(rsc as int, csc as int, i, j) == cell_addr(
                            rsc as int,
                            csc as int,
                            (row0 as int) + i,
                            (col0 as int) + j,
                        )) by (nonlinear_arith)
                            requires
                                c_base == (row0 as int) * (rsc as int) + (col0 as int) * (
                                csc as int),
                        ;
                        assert(c_base + cell_addr(rsc as int, csc as int, i2, j2) == cell_addr(
                            rsc as int,
                            csc as int,
                            (row0 as int) + i2,
                            (col0 as int) + j2,
                        )) by (nonlinear_arith)
                            requires
                                c_base == (row0 as int) * (rsc as int) + (col0 as int) * (
                                csc as int),
                        ;
                        assert(cell_addr(rsc as int, csc as int, row0 + i, col0 + j) != cell_addr(
                            rsc as int,
                            csc as int,
                            row0 + i2,
                            col0 + j2,
                        ));
                    }
                }
                let ghost pre = c@;
                self.ker.kernel(
                    k,
                    pa,
                    pa_base,
                    &self.data_offsets,
                    col0,
                    &self.kernel_offsets,
                    b,
                    c,
                    c_base,
                    rsc,
                    csc,
                );
                proof {
                    assert forall|m: int|
                        0 <= m < c@.len() && tile_addr(
                            m,
                            c_base as int,
                            rsc as int,
                            csc as int,
                            mr as int,
                            nr as int,
                        ) implies grid_addr(
                        m,
                        rsc as int,
                        csc as int,
                        prow0,
                        prow0 + mr,
                        (col0 as int),
                        (col0 as int) + nr,
                    ) by {
                        let (ti, tj) = choose|ti: int, tj: int|
                            0 <= ti < mr && 0 <= tj < nr && m == c_base + #[trigger] cell_addr(
                                rsc as int,
                                csc as int,
                                ti,
                                tj,
                            );
                        assert(m == cell_addr(
                            rsc as int,
                            csc as int,
                            prow0 + ti,
                            (col0 as int) + tj,
                        )) by (nonlinear_arith)
                            requires
                                c_base == prow0 * (rsc as int) + (col0 as int) * (csc as int),
                                m == c_base + cell_addr(rsc as int, csc as int, ti, tj),
                        ;
                    }
                    assert forall|i: int, x: int|
                        prow0 <= i < prow0 + mr && (col0 as int) <= x < (col0 as int) + nr
                        implies c@[#[trigger] cell_addr(rsc as int, csc as int, i, x)]
                            == self.conv_cell(pa@, b@, i, x) by {
                        let ti = i - prow0;
                        let tj = x - col0;
                        assert(cell_addr(rsc as int, csc as int, i, x) == c_base + cell_addr(
                            rsc as int,
                            csc as int,
                            ti,
                            tj,
                        )) by (nonlinear_arith)
                            requires
                                c_base == prow0 * (rsc as int) + (col0 as int) * (csc as int),
                                i == prow0 + ti,
                                x == (col0 as int) + tj,
                        ;
                        assert(c@[c_base + cell_addr(rsc as int, csc as int, ti, tj)] == dot(
                            pa@,
                            pa_base as int,
                            mr as int,
                            ti,
                            self.kernel_offsets@,
                            b@,
                            self.data_offsets@[(col0 as int) + tj] as int,
                            k as int,
                        ));
                        lemma_row_decompose(ia as int, ti, mr as int);
                        assert((ia as int) * ((mr as int) * (k as int)) == pa_base)
                            by (nonlinear_arith)
                            requires
                                pa_base == prow0 * (k as int),
                                prow0 == (ia as int) * (mr as int),
                        ;
                    }
                    assert forall|i: int, x: int|
                        0 <= i < prow0 && 0 <= x < n implies c@[#[trigger] cell_addr(
                        rsc as int,
                        csc as int,
                        i,
                        x,
                    )] == self.conv_cell(pa@, b@, i, x) by {
                        assert(!tile_addr(
                            cell_addr(rsc as int, csc as int, i, x),
                            c_base as int,
                            rsc as int,
                            csc as int,
                            mr as int,
                            nr as int,
                        )) by {
                            if tile_addr(
                                cell_addr(rsc as int, csc as int, i, x),
                                c_base as int,
                                rsc as int,
                                csc as int,
                                mr as int,
                                nr as int,
                            ) {
                                let (ti, tj) = choose|ti: int, tj: int|
                                    0 <= ti < mr && 0 <= tj < nr && cell_addr(
                                        rsc as int,
                                        csc as int,
                                        i,
                                        x,
                                    ) == c_base + #[trigger] cell_addr(
                                        rsc as int,
                                        csc as int,
                                        ti,
                                        tj,
                                    );
                                assert(cell_addr(rsc as int, csc as int, i, x) == cell_addr(
                                    rsc as int,
                                    csc as int,
                                    prow0 + ti,
                                    (col0 as int) + tj,
                                )) by (nonlinear_arith)
                                    requires
                                        c_base == prow0 * (rsc as int) + (col0 as int) * (
                                        csc as int),
                                        cell_addr(rsc as int, csc as int, i, x) == c_base
                                            + cell_addr(rsc as int, csc as int, ti, tj),
                                ;
                                assert(false);
                            }
                        }
                        assert(c@[cell_addr(rsc as int, csc as int, i, x)] == pre[cell_addr(
                            rsc as int,
                            csc as int,
                            i,
                            x,
                        )]);
                    }
                    assert forall|i: int, x: int|
                        prow0 <= i < prow0 + mr && 0 <= x < (ib as int) * (nr as int) implies c@[
                        #[trigger] cell_addr(rsc as int, csc as int, i, x)] == self.conv_cell(
                        pa@,
                        b@,
                        i,
                        x,
                    ) by {
                        assert(!tile_addr(
                            cell_addr(rsc as int, csc as int, i, x),
                            c_base as int,
                            rsc as int,
                            csc as int,
                            mr as int,
                            nr as int,
                        )) by {
                            if tile_addr(
                                cell_addr(rsc as int, csc as int, i, x),
                                c_base as int,
                                rsc as int,
                                csc as int,
                                mr as int,
                                nr as int,
                            ) {
                                let (ti, tj) = choose|ti: int, tj: int|
                                    0 <= ti < mr && 0 <= tj < nr && cell_addr(
                                        rsc as int,
                                        csc as int,
                                        i,
                                        x,
                                    ) == c_base + #[trigger] cell_addr(
                                        rsc as int,
                                        csc as int,
                                        ti,
                                        tj,
                                    );
                                assert(cell_addr(rsc as int, csc as int, i, x) == cell_addr(
                                    rsc as int,
                                    csc as int,
                                    prow0 + ti,
                                    (col0 as int) + tj,
                                )) by (nonlinear_arith)
                                    requires
                                        c_base == prow0 * (rsc as int) + (col0 as int) * (
                                        csc as int),
                                        cell_addr(rsc as int, csc as int, i, x) == c_base
                                            + cell_addr(rsc as int, csc as int, ti, tj),
                                ;
                                assert(false);
                            }
                        }
                        assert(c@[cell_addr(rsc as int, csc as int, i, x)] == pre[cell_addr(
                            rsc as int,
                            csc as int,
                            i,
                            x,
                        )]);
                    }
                    assert forall|m: int|
                        0 <= m < c@.len() && !grid_addr(
                            m,
                            rsc as int,
                            csc as int,
                            0,
                            prow0,
                            0,
                            n as int,
                        ) && !grid_addr(
                            m,
                            rsc as int,
                            csc as int,
                            prow0,
                            prow0 + mr,
                            0,
                            (ib as int + 1) * (nr as int),
                        ) implies c@[m] == old(c)@[m] by {
                        assert(!grid_addr(
                            m,
                            rsc as int,
                            csc as int,
                            prow0,
                            prow0 + mr,
                            0,
                            (ib as int) * (nr as int),
                        )) by {
                            if grid_addr(
                                m,
                                rsc as int,
                                csc as int,
                                prow0,
                                prow0 + mr,
                                0,
                                (ib as int) * (nr as int),
                            ) {
                                lemma_grid_mono(
                                    m,
                                    rsc as int,
                                    csc as int,
                                    prow0,
                                    prow0 + mr,
                                    0,
                                    (ib as int) * (nr as int),
                                    prow0,
                                    prow0 + mr,
                                    0,
                                    (ib as int + 1) * (nr as int),
                                );
                            }
                        }
                        assert(!tile_addr(
                            m,
                            c_base as int,
                            rsc as int,
                            csc as int,
                            mr as int,
                            nr as int,
                        )) by {
                            if tile_addr(
                                m,
                                c_base as int,
                                rsc as int,
                                csc as int,
                                mr as int,
                                nr as int,
                            ) {
                                assert(grid_addr(
                                    m,
                                    rsc as int,
                                    csc as int,
                                    prow0,
                                    prow0 + mr,
                                    (col0 as int),
                                    (col0 as int) + nr,
                                ));
                                lemma_grid_mono(
                                    m,
                                    rsc as int,
                                    csc as int,
                                    prow0,
                                    prow0 + mr,
                                    (col0 as int),
                                    (col0 as int) + nr,
                                    prow0,
                                    prow0 + mr,
                                    0,
                                    (ib as int + 1) * (nr as int),
                                );
                            }
                        }
                        assert(c@[m] == pre[m]);
                    }
                }
                ib += 1;
            }
            if colt != 0 {
                let col0 = colp * nr;
                proof {
                    assert((colp as int) * (nr as int) + colt == n);
                }
                let ghost pre = c@;
                self.tail_tile(pa, pa_base, col0, b, c, &mut tmp, row0, col0, mr, colt, rsc, csc);
                proof {
                    assert forall|i: int, x: int|
                        prow0 <= i < prow0 + mr && 0 <= x < n implies c@[#[trigger] cell_addr(
                        rsc as int,
                        csc as int,
                        i,
                        x,
                    )] == self.conv_cell(pa@, b@, i, x) by {
                        if x >= col0 as int {
                            assert(c@[cell_addr(rsc as int, csc as int, i, x)] == dot(
                                pa@,
                                pa_base as int,
                                mr as int,
                                i - prow0,
                                self.kernel_offsets@,
                                b@,
                                self.data_offsets@[(col0 as int) + (x - col0)] as int,
                                k as int,
                            ));
                            lemma_row_decompose(ia as int, i - prow0, mr as int);
                            assert((ia as int) * ((mr as int) * (k as int)) == pa_base)
                                by (nonlinear_arith)
                                requires
                                    pa_base == prow0 * (k as int),
                                    prow0 == (ia as int) * (mr as int),
                            ;
                        } else {
                            assert(!grid_addr(
                                cell_addr(rsc as int, csc as int, i, x),
                                rsc as int,
                                csc as int,
                                prow0,
                                prow0 + mr,
                                (col0 as int),
                                (col0 as int) + colt,
                            )) by {
                                if grid_addr(
                                    cell_addr(rsc as int, csc as int, i, x),
                                    rsc as int,
                                    csc as int,
                                    prow0,
                                    prow0 + mr,
                                    (col0 as int),
                                    (col0 as int) + colt,
                                ) {
                                    let (gi, gj) = choose|gi: int, gj: int|
                                        prow0 <= gi < prow0 + mr && (col0 as int) <= gj < (
                                        col0 as int) + colt && cell_addr(rsc as int, csc as int, i, x)
                                            == #[trigger] cell_addr(rsc as int, csc as int, gi, gj);
                                    assert(false);
                                }
                            }
                            assert(c@[cell_addr(rsc as int, csc as int, i, x)] == pre[cell_addr(
                                rsc as int,
                                csc as int,
                                i,
                                x,
                            )]);
                        }
                    }
                    assert forall|i: int, x: int|
                        0 <= i < prow0 && 0 <= x < n implies c@[#[trigger] cell_addr(
                        rsc as int,
                        csc as int,
                        i,
                        x,
                    )] == self.conv_cell(pa@, b@, i, x) by {
                        assert(!grid_addr(
                            cell_addr(rsc as int, csc as int, i, x),
                            rsc as int,
                            csc as int,
                            prow0,
                            prow0 + mr,
                            (col0 as int),
                            (col0 as int) + colt,
                        )) by {
                            if grid_addr(
                                cell_addr(rsc as int, csc as int, i, x),
                                rsc as int,
                                csc as int,
                                prow0,
                                prow0 + mr,
                                (col0 as int),
                                (col0 as int) + colt,
                            ) {
                                let (gi, gj) = choose|gi: int, gj: int|
                                    prow0 <= gi < prow0 + mr && (col0 as int) <= gj < (
                                    col0 as int) + colt && cell_addr(rsc as int, csc as int, i, x)
                                        == #[trigger] cell_addr(rsc as int, csc as int, gi, gj);
                                assert(false);
                            }
                        }
                        assert(c@[cell_addr(rsc as int, csc as int, i, x)] == pre[cell_addr(
                            rsc as int,
                            csc as int,
                            i,
                            x,
                        )]);
                    }
                    assert forall|m: int|
                        0 <= m < c@.len() && !grid_addr(
                            m,
                            rsc as int,
                            csc as int,
                            0,
                            prow0 + mr,
                            0,
                            n as int,
                        ) implies c@[m] == old(c)@[m] by {
                        assert(!grid_addr(m, rsc as int, csc as int, 0, prow0, 0, n as int)) by {
                            if grid_addr(m, rsc as int, csc as int, 0, prow0, 0, n as int) {
                                lemma_grid_mono(
                                    m,
                                    rsc as int,
                                    csc as int,
                                    0,
                                    prow0,
                                    0,
                                    n as int,
                                    0,
                                    prow0 + mr,
                                    0,
                                    n as int,
                                );
                            }
                        }
                        assert(!grid_addr(
                            m,
                            rsc as int,
                            csc as int,
                            prow0,
                            prow0 + mr,
                            0,
                            (colp as int) * (nr as int),
                        )) by {
                            if grid_addr(
                                m,
                                rsc as int,
                                csc as int,
                                prow0,
                                prow0 + mr,
                                0,
                                (colp as int) * (nr as int),
                            ) {
                                lemma_grid_mono(
                                    m,
                                    rsc as int,
                                    csc as int,
                                    prow0,
                                    prow0 + mr,
                                    0,
                                    (colp as int) * (nr as int),
                                    0,
                                    prow0 + mr,
                                    0,
                                    n as int,
                                );
                            }
                        }
                        assert(!grid_addr(
                            m,
                            rsc as int,
                            csc as int,
                            prow0,
                            prow0 + mr,
                            (col0 as int),
                            (col0 as int) + colt,
                        )) by {
                            if grid_addr(
                                m,
                                rsc as int,
                                csc as int,
                                prow0,
                                prow0 + mr,
                                (col0 as int),
                                (col0 as int) + colt,
                            ) {
                                lemma_grid_mono(
                                    m,
                                    rsc as int,
                                    csc as int,
                                    prow0,
                                    prow0 + mr,
                                    (col0 as int),
                                    (col0 as int) + colt,
                                    0,
                                    prow0 + mr,
                                    0,
                                    n as int,
                                );
                            }
                        }
                        assert(c@[m] == pre[m]);
                    }
                }
            } else {
                proof {
                    assert((colp as int) * (nr as int) == n as int);
                }
            }
            proof {
                assert((ia as int + 1) * (mr as int) == prow0 + mr) by (nonlinear_arith)
                    requires
                        prow0 == (ia as int) * (mr as int),
                ;
            }
            ia += 1;
        }
        if rowt != 0 {
            proof {
                assert((panels as int) * (mr as int) + rowt == co);
                lemma_mul_inequality((panels as int) * (mr as int), co as int, k as int);
                assert(self.spec_panels() == panels as int + 1);
                assert((panels as int) * (mr as int) * (k as int) + (mr as int) * (k as int)
                    == self.spec_panels() * (mr as int) * (k as int)) by (nonlinear_arith)
                    requires
                        self.spec_panels() == panels as int + 1,
                ;
            }
            let row0 = panels * mr;
            let pa_base = row0 * k;
            let ghost prow0 = row0 as int;
            let mut ib: usize = 0;
            while ib < colp
                invariant
                    ib <= colp,
                    c@.len() == old(c)@.len(),
                    tmp@.len() == (mr as int) * (nr as int),
                    forall|i: int, x: int|
                        0 <= i < prow0 && 0 <= x < n ==> c@[#[trigger] cell_addr(
                            rsc as int,
                            csc as int,
                            i,
                            x,
                        )] == self.conv_cell(pa@, b@, i, x),
                    forall|i: int, x: int|
                        prow0 <= i < co && 0 <= x < (ib as int) * (nr as int) ==> c@[
                            #[trigger] cell_addr(rsc as int, csc as int, i, x)]
                            == self.conv_cell(pa@, b@, i, x),
                    forall|m: int|
                        0 <= m < c@.len() && !grid_addr(
                            m,
                            rsc as int,
                            csc as int,
                            0,
                            prow0,
                            0,
                            n as int,
                        ) && !grid_addr(
                            m,
                            rsc as int,
                            csc as int,
                            prow0,
                            co as int,
                            0,
                            (ib as int) * (nr as int),
                        ) ==> c@[m] == old(c)@[m],
                decreases colp - ib,
            {
                proof {
                    lemma_mul_inequality(ib as int, colp as int, nr as int);
                    lemma_mul_inequality(ib as int + 1, colp as int, nr as int);
                    assert((ib as int + 1) * (nr as int) == (ib as int) * (nr as int) + nr)
                        by (nonlinear_arith);
                }
                let col0 = ib * nr;
                let ghost pre = c@;
                self.tail_tile(pa, pa_base, col0, b, c, &mut tmp, row0, col0, rowt, nr, rsc, csc);
                proof {
                    assert forall|i: int, x: int|
                        prow0 <= i < co && 0 <= x < (ib as int + 1) * (nr as int) implies c@[
                        #[trigger] cell_addr(rsc as int, csc as int, i, x)] == self.conv_cell(
                        pa@,
                        b@,
                        i,
                        x,
                    ) by {
                        if x >= col0 as int {
                            assert(c@[cell_addr(rsc as int, csc as int, i, x)] == dot(
                                pa@,
                                pa_base as int,
                                mr as int,
                                i - prow0,
                                self.kernel_offsets@,
                                b@,
                                self.data_offsets@[(col0 as int) + (x - col0)] as int,
                                k as int,
                            ));
                            lemma_row_decompose(panels as int, i - prow0, mr as int);
                            assert((panels as int) * ((mr as int) * (k as int)) == pa_base)
                                by (nonlinear_arith)
                                requires
                                    pa_base == prow0 * (k as int),
                                    prow0 == (panels as int) * (mr as int),
                            ;
                        } else {
                            assert(!grid_addr(
                                cell_addr(rsc as int, csc as int, i, x),
                                rsc as int,
                                csc as int,
                                prow0,
                                prow0 + rowt,
                                (col0 as int),
                                (col0 as int) + nr,
                            )) by {
                                if grid_addr(
                                    cell_addr(rsc as int, csc as int, i, x),
                                    rsc as int,
                                    csc as int,
                                    prow0,
                                    prow0 + rowt,
                                    (col0 as int),
                                    (col0 as int) + nr,
                                ) {
                                    let (gi, gj) = choose|gi: int, gj: int|
                                        prow0 <= gi < prow0 + rowt && (col0 as int) <= gj < (
                                        col0 as int) + nr && cell_addr(rsc as int, csc as int, i, x)
                                            == #[trigger] cell_addr(rsc as int, csc as int, gi, gj);
                                    assert(false);
                                }
                            }
                            assert(c@[cell_addr(rsc as int, csc as int, i, x)] == pre[cell_addr(
                                rsc as int,
                                csc as int,
                                i,
                                x,
                            )]);
                        }
                    }
                    assert forall|i: int, x: int|
                        0 <= i < prow0 && 0 <= x < n implies c@[#[trigger] cell_addr(
                        rsc as int,
                        csc as int,
                        i,
                        x,
                    )] == self.conv_cell(pa@, b@, i, x) by {
                        assert(!grid_addr(
                            cell_addr(rsc as int, csc as int, i, x),
                            rsc as int,
                            csc as int,
                            prow0,
                            prow0 + rowt,
                            (col0 as int),
                            (col0 as int) + nr,
                        )) by {
                            if grid_addr(
                                cell_addr(rsc as int, csc as int, i, x),
                                rsc as int,
                                csc as int,
                                prow0,
                                prow0 + rowt,
                                (col0 as int),
                                (col0 as int) + nr,
                            ) {
                                let (gi, gj) = choose|gi: int, gj: int|
                                    prow0 <= gi < prow0 + rowt && (col0 as int) <= gj < (
                                    col0 as int) + nr && cell_addr(rsc as int, csc as int, i, x)
                                        == #[trigger] cell_addr(rsc as int, csc as int, gi, gj);
                                assert(false);
                            }
                        }
                        assert(c@[cell_addr(rsc as int, csc as int, i, x)] == pre[cell_addr(
                            rsc as int,
                            csc as int,
                            i,
                            x,
                        )]);
                    }
                    assert forall|m: int|
                        0 <= m < c@.len() && !grid_addr(
                            m,
                            rsc as int,
                            csc as int,
                            0,
                            prow0,
                            0,
                            n as int,
                        ) && !grid_addr(
                            m,
                            rsc as int,
                            csc as int,
                            prow0,
                            co as int,
                            0,
                            (ib as int + 1) * (nr as int),
                        ) implies c@[m] == old(c)@[m] by {
                        assert(!grid_addr(
                            m,
                            rsc as int,
                            csc as int,
                            prow0,
                            co as int,
                            0,
                            (ib as int) * (nr as int),
                        )) by {
                            if grid_addr(
                                m,
                                rsc as int,
                                csc as int,
                                prow0,
                                co as int,
                                0,
                                (ib as int) * (nr as int),
                            ) {
                                lemma_grid_mono(
                                    m,
                                    rsc as int,
                                    csc as int,
                                    prow0,
                                    co as int,
                                    0,
                                    (ib as int) * (nr as int),
                                    prow0,
                                    co as int,
                                    0,
                                    (ib as int + 1) * (nr as int),
                                );
                            }
                        }
                        assert(!grid_addr(
                            m,
                            rsc as int,
                            csc as int,
                            prow0,
                            prow0 + rowt,
                            (col0 as int),
                            (col0 as int) + nr,
                        )) by {
                            if grid_addr(
                                m,
                                rsc as int,
                                csc as int,
                                prow0,
                                prow0 + rowt,
                                (col0 as int),
                                (col0 as int) + nr,
                            ) {
                                lemma_grid_mono(
                                    m,
                                    rsc as int,
                                    csc as int,
                                    prow0,
                                    prow0 + rowt,
                                    (col0 as int),
                                    (col0 as int) + nr,
                                    prow0,
                                    co as int,
                                    0,
                                    (ib as int + 1) * (nr as int),
                                );
                            }
                        }
                        assert(c@[m] == pre[m]);
                    }
                }
                ib += 1;
            }
            if colt != 0 {
                let col0 = colp * nr;
                let ghost pre = c@;
                self.tail_tile(
                    pa,
                    pa_base,
                    col0,
                    b,
                    c,
                    &mut tmp,
                    row0,
                    col0,
                    rowt,
                    colt,
                    rsc,
                    csc,
                );
                proof {
                    assert forall|i: int, x: int|
                        0 <= i < co && 0 <= x < n implies c@[#[trigger] cell_addr(
                        rsc as int,
                        csc as int,
                        i,
                        x,
                    )] == self.conv_cell(pa@, b@, i, x) by {
                        if prow0 <= i && (col0 as int) <= x {
                            assert(c@[cell_addr(rsc as int, csc as int, i, x)] == dot(
                                pa@,
                                pa_base as int,
                                mr as int,
                                i - prow0,
                                self.kernel_offsets@,
                                b@,
                                self.data_offsets@[(col0 as int) + (x - col0)] as int,
                                k as int,
                            ));
                            lemma_row_decompose(panels as int, i - prow0, mr as int);
                            assert((panels as int) * ((mr as int) * (k as int)) == pa_base)
                                by (nonlinear_arith)
                                requires
                                    pa_base == prow0 * (k as int),
                                    prow0 == (panels as int) * (mr as int),
                            ;
                        } else {
                            assert(!grid_addr(
                                cell_addr(rsc as int, csc as int, i, x),
                                rsc as int,
                                csc as int,
                                prow0,
                                prow0 + rowt,
                                (col0 as int),
                                (col0 as int) + colt,
                            )) by {
                                if grid_addr(
                                    cell_addr(rsc as int, csc as int, i, x),
                                    rsc as int,
                                    csc as int,
                                    prow0,
                                    prow0 + rowt,
                                    (col0 as int),
                                    (col0 as int) + colt,
                                ) {
                                    let (gi, gj) = choose|gi: int, gj: int|
                                        prow0 <= gi < prow0 + rowt && (col0 as int) <= gj < (
                                        col0 as int) + colt && cell_addr(rsc as int, csc as int, i, x)
                                            == #[trigger] cell_addr(rsc as int, csc as int, gi, gj);
                                    assert(false);
                                }
                            }
                            assert(c@[cell_addr(rsc as int, csc as int, i, x)] == pre[cell_addr(
                                rsc as int,
                                csc as int,
                                i,
                                x,
                            )]);
                        }
                    }
                    assert forall|m: int|
                        0 <= m < c@.len() && !grid_addr(
                            m,
                            rsc as int,
                            csc as int,
                            0,
                            co as int,
                            0,
                            n as int,
                        ) implies c@[m] == old(c)@[m] by {
                        assert(!grid_addr(m, rsc as int, csc as int, 0, prow0, 0, n as int)) by {
                            if grid_addr(m, rsc as int, csc as int, 0, prow0, 0, n as int) {
                                lemma_grid_mono(
                                    m,
                                    rsc as int,
                                    csc as int,
                                    0,
                                    prow0,
                                    0,
                                    n as int,
                                    0,
                                    co as int,
                                    0,
                                    n as int,
                                );
                            }
                        }
                        assert(!grid_addr(
                            m,
                            rsc as int,
                            csc as int,
                            prow0,
                            co as int,
                            0,
                            (colp as int) * (nr as int),
                        )) by {
                            if grid_addr(
                                m,
                                rsc as int,
                                csc as int,
                                prow0,
                                co as int,
                                0,
                                (colp as int) * (nr as int),
                            ) {
                                lemma_grid_mono(
                                    m,
                                    rsc as int,
                                    csc as int,
                                    prow0,
                                    co as int,
                                    0,
                                    (colp as int) * (nr as int),
                                    0,
                                    co as int,
                                    0,
                                    n as int,
                                );
                            }
                        }
                        assert(!grid_addr(
                            m,
                            rsc as int,
                            csc as int,
                            prow0,
                            prow0 + rowt,
                            (col0 as int),
                            (col0 as int) + colt,
                        )) by {
                            if grid_addr(
                                m,
                                rsc as int,
                                csc as int,
                                prow0,
                                prow0 + rowt,
                                (col0 as int),
                                (col0 as int) + colt,
                            ) {
                                lemma_grid_mono(
                                    m,
                                    rsc as int,
                                    csc as int,
                                    prow0,
                                    prow0 + rowt,
                                    (col0 as int),
                                    (col0 as int) + colt,
                                    0,
                                    co as int,
                                    0,
                                    n as int,
                                );
                            }
                        }
                        assert(c@[m] == pre[m]);
                    }
                }
            }
        }
    }

    /// Human-readable summary of the packing and its microkernel: the
    /// channel count, the padded offset-table lengths and the kernel's name
    /// and tile widths, rendered by `render_summary`.
    pub fn describe(&self) -> (r: String)
        ensures
            r@ == rendered_summary(
                self.co,
                self.kernel_offsets@.len() as usize,
                self.data_offsets@.len() as usize,
                self.ker.spec_name(),
                self.ker.spec_mr() as usize,
                self.ker.spec_nr() as usize,
            ),
    {
        let k_len = self.kernel_offsets.len();
        let centers = self.data_offsets.len();
        render_summary(self.co, k_len, centers, self.ker.name(), self.ker.mr(), self.ker.nr())
    }
}

/// The packed-operand convolution surface a caller programs against: size
/// and alignment queries, the packing transform, and the driver.  The spec
/// functions let a caller reason about any implementation uniformly.
pub trait Conv: Sized {
    /// The implementation's internal consistency condition.
    spec fn wf_spec(&self) -> bool;

    /// Output channel count.
    spec fn co_spec(&self) -> int;

    /// Output width.
    spec fn n_spec(&self) -> int;

    /// Elements a packed filter buffer must hold.
    spec fn packed_a_len_spec(&self) -> int;

    /// Required byte alignment of a packed filter buffer.
    spec fn packed_a_alignment_spec(&self) -> int;

    /// When packing may run: a destination of exactly the queried length and
    /// a source the base and strides keep in bounds.
    spec fn pack_req(&self, pa: Seq<i64>, a: Seq<i64>, a_base: int, rsa: int, csa: int) -> bool;

    /// The packed buffer as a function of the source, its base and strides,
    /// and the destination's prior contents.
    spec fn packed(&self, old_pa: Seq<i64>, a: Seq<i64>, a_base: int, rsa: int, csa: int) -> Seq<
        i64,
    >;

    /// When the driver may run: a packed buffer of the queried length, a
    /// data buffer the offset tables keep in bounds, and a destination whose
    /// strides address every real cell injectively.
    spec fn conv_req(&self, pa: Seq<i64>, b: Seq<i64>, c: Seq<i64>, rsc: int, csc: int) -> bool;

    /// The value the driver writes at output cell `(ico, x)`.
    spec fn cell(&self, pa: Seq<i64>, b: Seq<i64>, ico: int, x: int) -> i64;

    /// Elements the caller must allocate for the packed filter buffer.
    fn packed_a_len(&self) -> (r: usize)
        requires
            self.wf_spec(),
        ensures
            r == self.packed_a_len_spec(),
    ;

    /// Required byte alignment for the packed filter buffer.
    fn packed_a_alignment(&self) -> (r: usize)
        ensures
            r == self.packed_a_alignment_spec(),
            1 <= r,
    ;

    /// Packs the filter tensor `a`, whose element `(row, t)` sits at
    /// `a_base + row*rsa + t*csa`, into `pa`.  The strides may be negative
    /// (transposed packing).
    fn pack_a(&self, pa: &mut Vec<i64>, a: &Vec<i64>, a_base: usize, rsa: isize, csa: isize)
        requires
            self.wf_spec(),
            self.pack_req(old(pa)@, a@, a_base as int, rsa as int, csa as int),
        ensures
            final(pa)@ == self.packed(old(pa)@, a@, a_base as int, rsa as int, csa as int),
    ;

    /// Output channel count.
    fn co(&self) -> (r: usize)
        ensures
            r == self.co_spec(),
    ;

    /// Output width.
    fn n(&self) -> (r: usize)
        ensures
            r == self.n_spec(),
    ;

    /// Runs the convolution: writes every real output cell of `c` exactly
    /// once with its value and touches nothing else.
    fn conv(&self, pa: &Vec<i64>, b: &Vec<i64>, c: &mut Vec<i64>, rsc: usize, csc: usize)
        requires
            self.wf_spec(),
            self.conv_req(pa@, b@, old(c)@, rsc as int, csc as int),
        ensures
            final(c)@.len() == old(c)@.len(),
            forall|i: int, x: int|
                0 <= i < self.co_spec() && 0 <= x < self.n_spec() ==> final(c)@[
                    #[trigger] cell_addr(rsc as int, csc as int, i, x)] == self.cell(pa@, b@, i, x),
            forall|m: int|
                0 <= m < final(c)@.len() && !grid_addr(
                    m,
                    rsc as int,
                    csc as int,
                    0,
                    self.co_spec(),
                    0,
                    self.n_spec(),
                ) ==> final(c)@[m] == old(c)@[m],
    ;
}

impl<K: ConvKer> Conv for PackedConv<K> {
    open spec fn wf_spec(&self) -> bool {
        self.wf()
    }

    open spec fn co_spec(&self) -> int {
        self.co as int
    }

    open spec fn n_spec(&self) -> int {
        self.n as int
    }

    open spec fn packed_a_len_spec(&self) -> int {
        self.spec_packed_a_len()
    }

    open spec fn packed_a_alignment_spec(&self) -> int {
        self.ker.spec_alignment_a() as int
    }

    open spec fn pack_req(&self, pa: Seq<i64>, a: Seq<i64>, a_base: int, rsa: int, csa: int) -> bool {
        &&& pa.len() == self.spec_packed_a_len()
        &&& pa.len() <= isize::MAX
        &&& a.len() <= isize::MAX
        &&& forall|row: int, t: int|
            0 <= row < self.co && 0 <= t < self.k ==> 0 <= a_base + #[trigger] cell_addr(
                rsa,
                csa,
                row,
                t,
            ) < a.len()
    }

    open spec fn packed(&self, old_pa: Seq<i64>, a: Seq<i64>, a_base: int, rsa: int, csa: int) -> Seq<
        i64,
    > {
        self.spec_packed_a(old_pa, a, a_base, rsa, csa)
    }

    open spec fn conv_req(&self, pa: Seq<i64>, b: Seq<i64>, c: Seq<i64>, rsc: int, csc: int) -> bool {
        &&& self.spec_packed_a_len() <= pa.len()
        &&& forall|x: int, t: int|
            0 <= x < self.data_offsets@.len() && 0 <= t < self.k ==> #[trigger] self.data_offsets@[
                x] + #[trigger] self.kernel_offsets@[t] < b.len()
        &&& forall|i: int, x: int|
            0 <= i < self.co && 0 <= x < self.n ==> #[trigger] cell_addr(rsc, csc, i, x) < c.len()
        &&& forall|i: int, x: int, i2: int, x2: int|
            0 <= i < self.co && 0 <= x < self.n && 0 <= i2 < self.co && 0 <= x2 < self.n && (i != i2
                || x != x2) ==> #[trigger] cell_addr(rsc, csc, i, x) != #[trigger] cell_addr(
                rsc,
                csc,
                i2,
                x2,
            )
    }

    open spec fn cell(&self, pa: Seq<i64>, b: Seq<i64>, ico: int, x: int) -> i64 {
        self.conv_cell(pa, b, ico, x)
    }

    fn packed_a_len(&self) -> (r: usize) {
        PackedConv::packed_a_len(self)
    }

    fn packed_a_alignment(&self) -> (r: usize) {
        PackedConv::packed_a_alignment(self)
    }

    fn pack_a(&self, pa: &mut Vec<i64>, a: &Vec<i64>, a_base: usize, rsa: isize, csa: isize) {
        PackedConv::pack_a(self, pa, a, a_base, rsa, csa)
    }

    fn co(&self) -> (r: usize) {
        PackedConv::co(self)
    }

    fn n(&self) -> (r: usize) {
        PackedConv::n(self)
    }

    fn conv(&self, pa: &Vec<i64>, b: &Vec<i64>, c: &mut Vec<i64>, rsc: usize, csc: usize) {
        PackedConv::conv(self, pa, b, c, rsc, csc)
    }
}

} // verus!
