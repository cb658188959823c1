//! The microkernel capability: a fixed compute primitive that multiplies one
//! packed filter row-panel by one panel of gathered input columns and writes
//! an `mr * nr` tile.  Edge handling is never its business; the driver only
//! ever asks it for full tiles.

use vstd::prelude::*;
use vstd::arithmetic::div_mod::lemma_fundamental_div_mod_converse;

verus! {

/// Destination address of logical cell `(i, j)` under element strides
/// `(rsc, csc)`.
pub open spec fn cell_addr(rsc: int, csc: int, i: int, j: int) -> int {
    i * rsc + j * csc
}

/// Whether `m` is the address of some cell of the `h * w` tile based at
/// `base` with strides `(rsc, csc)`.
pub open spec fn tile_addr(m: int, base: int, rsc: int, csc: int, h: int, w: int) -> bool {
    exists|i: int, j: int|
        0 <= i < h && 0 <= j < w && m == base + #[trigger] cell_addr(rsc, csc, i, j)
}

/// The accumulation one output cell receives: the sum of the first `t`
/// contraction terms, `panel row i, step u` times `data at top + offset(u)`,
/// in step order, with wrapping arithmetic.  The panel is laid out
/// step-major: row `i`, step `u` lives at `base + u*mr + i`.
pub open spec fn dot(
    pa: Seq<i64>,
    base: int,
    mr: int,
    i: int,
    koffs: Seq<usize>,
    b: Seq<i64>,
    top: int,
    t: int,
) -> i64
    decreases t,
{
    if t <= 0 {
        0i64
    } else {
        vstd::wrapping::i64_specs::wrapping_add(
            dot(pa, base, mr, i, koffs, b, top, t - 1),
            vstd::wrapping::i64_specs::wrapping_mul(
                pa[base + (t - 1) * mr + i],
                b[top + koffs[t - 1]],
            ),
        )
    }
}

/// A microkernel: a name, its two tile widths, the byte alignments it wants
/// for its operands, and the one compute operation.  Architecture-specific
/// implementations satisfy this contract; the driver is generic over the
/// choice.
pub trait ConvKer: Sized {
    /// Row-tile width, as the contracts see it.
    spec fn spec_mr(&self) -> nat;

    /// Column-tile width, as the contracts see it.
    spec fn spec_nr(&self) -> nat;

    /// Required byte alignment of the packed filter operand.
    spec fn spec_alignment_a(&self) -> nat;

    /// Required byte alignment of the gathered data operand.
    spec fn spec_alignment_b(&self) -> nat;

    /// Every microkernel has positive tile widths and alignments, and its
    /// packed-operand alignment divides the byte size of one panel row
    /// group, so an aligned buffer of the queried length never ends short.
    proof fn properties(&self)
        ensures
            1 <= self.spec_mr(),
            1 <= self.spec_nr(),
            1 <= self.spec_alignment_a(),
            1 <= self.spec_alignment_b(),
            (8 * self.spec_mr() as int) % (self.spec_alignment_a() as int) == 0,
    ;

    /// The microkernel's name, as the contracts see it.
    spec fn spec_name(&self) -> Seq<char>;

    /// A short human-readable name.
    fn name(&self) -> (r: &'static str)
        ensures
            r@ == self.spec_name(),
    ;

    /// Row-tile width.
    fn mr(&self) -> (r: usize)
        ensures
            r == self.spec_mr(),
            1 <= r,
    ;

    /// Column-tile width.
    fn nr(&self) -> (r: usize)
        ensures
            r == self.spec_nr(),
            1 <= r,
    ;

    /// Required byte alignment for the packed filter operand.
    fn alignment_bytes_a(&self) -> (r: usize)
        ensures
            r == self.spec_alignment_a(),
            1 <= r,
    ;

    /// Required byte alignment for the gathered data operand.
    fn alignment_bytes_b(&self) -> (r: usize)
        ensures
            r == self.spec_alignment_b(),
            1 <= r,
    ;

    /// The compute operation.  Reads the `mr * k` panel of `pa` based at
    /// `pa_base`, gathers column `j`'s receptive field at
    /// `b[btops[bt_base + j] + koffs[t]]`, and writes (never accumulates
    /// into) the full `mr * nr` tile of `c` based at `c_base` under strides
    /// `(rsc, csc)`.  Cells outside that tile are left untouched.
    fn kernel(
        &self,
        k: usize,
        pa: &Vec<i64>,
        pa_base: usize,
        btops: &Vec<usize>,
        bt_base: usize,
        koffs: &Vec<usize>,
        b: &Vec<i64>,
        c: &mut Vec<i64>,
        c_base: usize,
        rsc: usize,
        csc: usize,
    )
        requires
            k <= koffs@.len(),
            pa_base + self.spec_mr() * k <= pa@.len(),
            bt_base + self.spec_nr() <= btops@.len(),
            forall|j: int, t: int|
                0 <= j < self.spec_nr() && 0 <= t < k ==> #[trigger] btops@[bt_base + j]
                    + #[trigger] koffs@[t] < b@.len(),
            forall|i: int, j: int|
                0 <= i < self.spec_mr() && 0 <= j < self.spec_nr() ==> c_base + #[trigger] cell_addr(
                    rsc as int,
                    csc as int,
                    i,
                    j,
                ) < old(c)@.len(),
            forall|i: int, j: int, i2: int, j2: int|
                0 <= i < self.spec_mr() && 0 <= j < self.spec_nr() && 0 <= i2 < self.spec_mr() && 0
                    <= j2 < self.spec_nr() && (i != i2 || j != j2) ==> #[trigger] cell_addr(
                    rsc as int,
                    csc as int,
                    i,
                    j,
                ) != #[trigger] cell_addr(rsc as int, csc as int, i2, j2),
        ensures
            final(c)@.len() == old(c)@.len(),
            forall|i: int, j: int|
                0 <= i < self.spec_mr() && 0 <= j < self.spec_nr() ==> final(c)@[c_base
                    + #[trigger] cell_addr(rsc as int, csc as int, i, j)] == dot(
                    pa@,
                    pa_base as int,
                    self.spec_mr() as int,
                    i,
                    koffs@,
                    b@,
                    btops@[bt_base + j] as int,
                    k as int,
                ),
            forall|m: int|
                0 <= m < final(c)@.len() && !tile_addr(
                    m,
                    c_base as int,
                    rsc as int,
                    csc as int,
                    self.spec_mr() as int,
                    self.spec_nr() as int,
                ) ==> final(c)@[m] == old(c)@[m],
    ;
}

/// Two cells of a step-major (row-major with width `w`) layout have the same
/// slot only when they are the same cell.
pub proof fn lemma_rowmajor_unique(i: int, j: int, i2: int, j2: int, w: int)
    requires
        0 <= j < w,
        0 <= j2 < w,
        0 <= i,
        0 <= i2,
        i * w + j == i2 * w + j2,
    ensures
        i == i2,
        j == j2,
{
    lemma_fundamental_div_mod_converse(i * w + j, w, i, j);
    lemma_fundamental_div_mod_converse(i2 * w + j2, w, i2, j2);
}

/// A portable scalar microkernel, usable with any tile widths.  It serves
/// both as the fallback implementation and as the reference against which
/// tile-size independence is exercised.
#[derive(Clone, Copy, Debug)]
pub struct GenericKer {
    mr: usize,
    nr: usize,
}

impl GenericKer {
    #[verifier::type_invariant]
    pub closed spec fn inv(self) -> bool {
        1 <= self.mr && 1 <= self.nr
    }

    /// A scalar microkernel with the given tile widths.
    pub fn new(mr: usize, nr: usize) -> (r: GenericKer)
        requires
            1 <= mr,
            1 <= nr,
        ensures
            r.spec_mr() == mr,
            r.spec_nr() == nr,
    {
        GenericKer { mr, nr }
    }
}

impl ConvKer for GenericKer {
    closed spec fn spec_mr(&self) -> nat {
        if 1 <= self.mr {
            self.mr as nat
        } else {
            1
        }
    }

    closed spec fn spec_nr(&self) -> nat {
        if 1 <= self.nr {
            self.nr as nat
        } else {
            1
        }
    }

    open spec fn spec_alignment_a(&self) -> nat {
        8
    }

    open spec fn spec_alignment_b(&self) -> nat {
        8
    }

    proof fn properties(&self) {
        assert((8 * self.spec_mr() as int) % 8 == 0) by (nonlinear_arith);
    }

    closed spec fn spec_name(&self) -> Seq<char> {
        "generic"@
    }

    fn name(&self) -> (r: &'static str) {
        "generic"
    }

    fn mr(&self) -> (r: usize) {
        proof {
            use_type_invariant(self);
        }
        self.mr
    }

    fn nr(&self) -> (r: usize) {
        proof {
            use_type_invariant(self);
        }
        self.nr
    }

    fn alignment_bytes_a(&self) -> (r: usize) {
        8
    }

    fn alignment_bytes_b(&self) -> (r: usize) {
        8
    }

    fn kernel(
        &self,
        k: usize,
        pa: &Vec<i64>,
        pa_base: usize,
        btops: &Vec<usize>,
        bt_base: usize,
        koffs: &Vec<usize>,
        b: &Vec<i64>,
        c: &mut Vec<i64>,
        c_base: usize,
        rsc: usize,
        csc: usize,
    ) {
        proof {
            use_type_invariant(self);
        }
        let mr = self.mr;
        let nr = self.nr;
        let pa_len = pa.len();
        let bt_len = btops.len();
        let b_len = b.len();
        let c_len = c.len();
        let ghost oc = c@;
        let mut j: usize = 0;
        while j < nr
            invariant
                self.inv(),
                mr == self.spec_mr(),
                nr == self.spec_nr(),
                j <= nr,
                pa_len == pa@.len(),
                bt_len == btops@.len(),
                b_len == b@.len(),
                c_len == oc.len(),
                k <= koffs@.len(),
                pa_base + mr * k <= pa@.len(),
                bt_base + nr <= btops@.len(),
                forall|jj: int, t: int|
                    0 <= jj < nr && 0 <= t < k ==> #[trigger] btops@[bt_base + jj]
                        + #[trigger] koffs@[t] < b@.len(),
                forall|i: int, jj: int|
                    0 <= i < mr && 0 <= jj < nr ==> c_base + #[trigger] cell_addr(
                        rsc as int,
                        csc as int,
                        i,
                        jj,
                    ) < c@.len(),
                forall|i: int, jj: int, i2: int, j2: int|
                    0 <= i < mr && 0 <= jj < nr && 0 <= i2 < mr && 0 <= j2 < nr && (i != i2 || jj
                        != j2) ==> #[trigger] cell_addr(rsc as int, csc as int, i, jj)
                        != #[trigger] cell_addr(rsc as int, csc as int, i2, j2),
                c@.len() == oc.len(),
                forall|i: int, jj: int|
                    0 <= i < mr && 0 <= jj < j ==> c@[c_base + #[trigger] cell_addr(
                        rsc as int,
                        csc as int,
                        i,
                        jj,
                    )] == dot(
                        pa@,
                        pa_base as int,
                        mr as int,
                        i,
                        koffs@,
                        b@,
                        btops@[bt_base + jj] as int,
                        k as int,
                    ),
                forall|m: int|
                    0 <= m < c@.len() && !tile_addr(
                        m,
                        c_base as int,
                        rsc as int,
                        csc as int,
                        mr as int,
                        j as int,
                    ) ==> c@[m] == oc[m],
            decreases nr - j,
        {
            let top = btops[bt_base + j];
            let mut i: usize = 0;
            while i < mr
                invariant
                    self.inv(),
                    mr == self.spec_mr(),
                    nr == self.spec_nr(),
                    j < nr,
                    i <= mr,
                    pa_len == pa@.len(),
                    bt_len == btops@.len(),
                    b_len == b@.len(),
                    c_len == oc.len(),
                    top == btops@[bt_base + j],
                    k <= koffs@.len(),
                    pa_base + mr * k <= pa@.len(),
                    bt_base + nr <= btops@.len(),
                    forall|jj: int, t: int|
                        0 <= jj < nr && 0 <= t < k ==> #[trigger] btops@[bt_base + jj]
                            + #[trigger] koffs@[t] < b@.len(),
                    forall|ii: int, jj: int|
                        0 <= ii < mr && 0 <= jj < nr ==> c_base + #[trigger] cell_addr(
                            rsc as int,
                            csc as int,
                            ii,
                            jj,
                        ) < c@.len(),
                    forall|ii: int, jj: int, i2: int, j2: int|
                        0 <= ii < mr && 0 <= jj < nr && 0 <= i2 < mr && 0 <= j2 < nr && (ii != i2
                            || jj != j2) ==> #[trigger] cell_addr(rsc as int, csc as int, ii, jj)
                            != #[trigger] cell_addr(rsc as int, csc as int, i2, j2),
                    c@.len() == oc.len(),
                    forall|ii: int, jj: int|
                        0 <= ii < mr && 0 <= jj < j ==> c@[c_base + #[trigger] cell_addr(
                            rsc as int,
                            csc as int,
                            ii,
                            jj,
                        )] == dot(
                            pa@,
                            pa_base as int,
                            mr as int,
                            ii,
                            koffs@,
                            b@,
                            btops@[bt_base + jj] as int,
                            k as int,
                        ),
                    forall|ii: int|
                        0 <= ii < i ==> c@[c_base + #[trigger] cell_addr(
                            rsc as int,
                            csc as int,
                            ii,
                            j as int,
                        )] == dot(
                            pa@,
                            pa_base as int,
                            mr as int,
                            ii,
                            koffs@,
                            b@,
                            top as int,
                            k as int,
                        ),
                    forall|m: int|
                        0 <= m < c@.len() && !tile_addr(
                            m,
                            c_base as int,
                            rsc as int,
                            csc as int,
                            mr as int,
                            j as int,
                        ) && !tile_addr(
                            m,
                            c_base + cell_addr(rsc as int, csc as int, 0, j as int),
                            rsc as int,
                            csc as int,
                            i as int,
                            1,
                        ) ==> c@[m] == oc[m],
                decreases mr - i,
            {
                let mut acc: i64 = 0i64;
                let mut t: usize = 0;
                while t < k
                    invariant
                        t <= k,
                        i < mr,
                        j < nr,
                        pa_len == pa@.len(),
                        b_len == b@.len(),
                        bt_len == btops@.len(),
                        mr == self.spec_mr(),
                        nr == self.spec_nr(),
                        top == btops@[bt_base + j],
                        bt_base + nr <= btops@.len(),
                        k <= koffs@.len(),
                        pa_base + mr * k <= pa@.len(),
                        forall|jj: int, tt: int|
                            0 <= jj < nr && 0 <= tt < k ==> #[trigger] btops@[bt_base + jj]
                                + #[trigger] koffs@[tt] < b@.len(),
                        acc == dot(
                            pa@,
                            pa_base as int,
                            mr as int,
                            i as int,
                            koffs@,
                            b@,
                            top as int,
                            t as int,
                        ),
                    decreases k - t,
                {
                    proof {
                        assert((t as int) * (mr as int) + i < (k as int) * (mr as int))
                            by (nonlinear_arith)
                            requires
                                0 <= t < k,
                                0 <= i < mr,
                        ;
                        assert((mr as int) * (k as int) == (k as int) * (mr as int))
                            by (nonlinear_arith);
                    }
                    let f = pa[pa_base + t * mr + i];
                    let d = b[top + koffs[t]];
                    acc = acc.wrapping_add(f.wrapping_mul(d));
                    t += 1;
                }
                proof {
                    assert(c_base + cell_addr(rsc as int, csc as int, i as int, j as int)
                        < c@.len());
                }
                let idx = c_base + i * rsc + j * csc;
                c[idx] = acc;
                proof {
                    assert(idx == c_base + cell_addr(rsc as int, csc as int, i as int, j as int));
                    assert forall|m: int|
                        0 <= m < c@.len() && !tile_addr(
                            m,
                            c_base as int,
                            rsc as int,
                            csc as int,
                            mr as int,
                            j as int,
                        ) && !tile_addr(
                            m,
                            c_base + cell_addr(rsc as int, csc as int, 0, j as int),
                            rsc as int,
                            csc as int,
                            i as int + 1,
                            1,
                        ) implies c@[m] == oc[m] by {
                        if m == idx {
                            assert(cell_addr(rsc as int, csc as int, i as int, j as int)
                                == cell_addr(rsc as int, csc as int, 0, j as int) + cell_addr(
                                rsc as int,
                                csc as int,
                                i as int,
                                0,
                            ));
                            assert(tile_addr(
                                m,
                                c_base + cell_addr(rsc as int, csc as int, 0, j as int),
                                rsc as int,
                                csc as int,
                                i as int + 1,
                                1,
                            ));
                        }
                    }
                }
                i += 1;
            }
            proof {
                // the row strip written for column j joins the finished columns
                assert forall|m: int|
                    0 <= m < c@.len() && !tile_addr(
                        m,
                        c_base as int,
                        rsc as int,
                        csc as int,
                        mr as int,
                        j as int + 1,
                    ) implies c@[m] == oc[m] by {
                    assert(!tile_addr(
                        m,
                        c_base as int,
                        rsc as int,
                        csc as int,
                        mr as int,
                        j as int,
                    )) by {
                        if tile_addr(m, c_base as int, rsc as int, csc as int, mr as int, j as int) {
                            let (ii, jj) = choose|ii: int, jj: int|
                                0 <= ii < mr && 0 <= jj < j && m == c_base + #[trigger] cell_addr(
                                    rsc as int,
                                    csc as int,
                                    ii,
                                    jj,
                                );
                            assert(tile_addr(
                                m,
                                c_base as int,
                                rsc as int,
                                csc as int,
                                mr as int,
                                j as int + 1,
                            ));
                        }
                    }
                    assert(!tile_addr(
                        m,
                        c_base + cell_addr(rsc as int, csc as int, 0, j as int),
                        rsc as int,
                        csc as int,
                        mr as int,
                        1,
                    )) by {
                        if tile_addr(
                            m,
                            c_base + cell_addr(rsc as int, csc as int, 0, j as int),
                            rsc as int,
                            csc as int,
                            mr as int,
                            1,
                        ) {
                            let (ii, jj) = choose|ii: int, jj: int|
                                0 <= ii < mr && 0 <= jj < 1 && m == c_base + cell_addr(
                                    rsc as int,
                                    csc as int,
                                    0,
                                    j as int,
                                ) + #[trigger] cell_addr(rsc as int, csc as int, ii, jj);
                            assert(m == c_base + cell_addr(rsc as int, csc as int, ii, j as int));
                            assert(tile_addr(
                                m,
                                c_base as int,
                                rsc as int,
                                csc as int,
                                mr as int,
                                j as int + 1,
                            ));
                        }
                    }
                }
            }
            j += 1;
        }
    }
}

} // verus!
