//! Library-wide laws: the driver reproduces the reference convolution for
//! every tile-size choice, padding never reaches a real output, packing is a
//! pure function of its inputs, and the queried alignment divides the packed
//! buffer's byte size.

use vstd::prelude::*;
use vstd::arithmetic::div_mod::lemma_fundamental_div_mod;
use vstd::arithmetic::div_mod::lemma_fundamental_div_mod_converse;
use vstd::arithmetic::div_mod::lemma_mod_bound;
use vstd::arithmetic::div_mod::lemma_mod_multiples_basic;
use vstd::arithmetic::mul::lemma_mul_inequality;
use crate::geometry::ConvGeometry;
use crate::kernel::ConvKer;
use crate::kernel::cell_addr;
use crate::kernel::dot;
use crate::conv::PackedConv;
use crate::conv::lemma_round_up;

verus! {

/// Ties a packing descriptor to a geometry: the extents match and the real
/// (unpadded) entries of both offset tables are exactly the geometry's
/// offsets.
pub open spec fn describes<K: ConvKer>(pc: PackedConv<K>, g: ConvGeometry) -> bool {
    &&& pc.wf()
    &&& g.wf()
    &&& pc.co == g.co
    &&& pc.k == g.spec_k()
    &&& pc.n == g.spec_output_width()
    &&& forall|t: int|
        0 <= t < pc.k ==> #[trigger] pc.kernel_offsets@[t] == g.spec_kernel_offset(t)
    &&& forall|x: int| 0 <= x < pc.n ==> #[trigger] pc.data_offsets@[x] == x * (g.stride as int)
}

/// In a packed buffer, the slot for output row `ico`, contraction step `t`
/// holds exactly source element `(ico, t)`.
proof fn lemma_packed_row_entry<K: ConvKer>(
    pc: PackedConv<K>,
    old_pa: Seq<i64>,
    a: Seq<i64>,
    a_base: int,
    rsa: int,
    csa: int,
    ico: int,
    t: int,
)
    requires
        pc.wf(),
        old_pa.len() == pc.spec_packed_a_len(),
        0 <= ico < pc.co,
        0 <= t < pc.k,
    ensures
        pc.spec_packed_a(old_pa, a, a_base, rsa, csa)[(ico / pc.spec_mr()) * (pc.spec_mr() * (
        pc.k as int)) + t * pc.spec_mr() + (ico % pc.spec_mr())] == a[a_base + cell_addr(
            rsa,
            csa,
            ico,
            t,
        )],
{
    let mr = pc.spec_mr();
    let kk = pc.k as int;
    lemma_fundamental_div_mod(ico, mr);
    lemma_mod_bound(ico, mr);
    let p = ico / mr;
    let i = ico % mr;
    assert(mr * p == p * mr) by (nonlinear_arith);
    if p <= -1 {
        assert(p * mr <= -mr) by (nonlinear_arith)
            requires
                p <= -1,
                1 <= mr,
        ;
    }
    let r = t * mr + i;
    lemma_mul_inequality(t, kk - 1, mr);
    assert(t * mr >= 0) by (nonlinear_arith)
        requires
            0 <= t,
            0 <= mr,
    ;
    assert((kk - 1) * mr + mr == kk * mr) by (nonlinear_arith);
    assert(mr * kk == kk * mr) by (nonlinear_arith);
    assert(0 <= r < mr * kk);
    let m = p * (mr * kk) + r;
    lemma_round_up(pc.co as int, mr);
    assert(p < pc.spec_panels()) by {
        if p >= pc.spec_panels() {
            lemma_mul_inequality(pc.spec_panels(), p, mr);
            assert(pc.co <= pc.spec_panels() * mr);
        }
    }
    lemma_mul_inequality(p + 1, pc.spec_panels(), mr * kk);
    assert((p + 1) * (mr * kk) == p * (mr * kk) + mr * kk) by (nonlinear_arith);
    assert(pc.spec_panels() * (mr * kk) == pc.spec_panels() * mr * kk) by (nonlinear_arith);
    assert(m < pc.spec_packed_a_len());
    lemma_fundamental_div_mod_converse(m, mr * kk, p, r);
    lemma_fundamental_div_mod_converse(r, mr, t, i);
    assert(p * mr + i == ico);
    assert(pc.spec_packed_a(old_pa, a, a_base, rsa, csa)[m] == pc.spec_packed_entry(
        old_pa,
        a,
        a_base,
        rsa,
        csa,
        m,
    ));
}

/// Step by step, the dot product the driver computes from the packed buffer
/// equals the reference accumulation over the raw filter tensor.
proof fn lemma_dot_matches_naive<K: ConvKer>(
    pc: PackedConv<K>,
    g: ConvGeometry,
    old_pa: Seq<i64>,
    pa: Seq<i64>,
    filters: Seq<i64>,
    data: Seq<i64>,
    ico: int,
    x: int,
    t: int,
)
    requires
        describes(pc, g),
        old_pa.len() == pc.spec_packed_a_len(),
        pa == pc.spec_packed_a(old_pa, filters, 0, g.spec_k(), 1),
        0 <= ico < pc.co,
        0 <= x < pc.n,
        0 <= t <= pc.k,
    ensures
        dot(
            pa,
            (ico / pc.spec_mr()) * (pc.spec_mr() * (pc.k as int)),
            pc.spec_mr(),
            ico % pc.spec_mr(),
            pc.kernel_offsets@,
            data,
            pc.data_offsets@[x] as int,
            t,
        ) == g.naive_conv(filters, data, ico, x, t),
    decreases t,
{
    if t > 0 {
        lemma_dot_matches_naive(pc, g, old_pa, pa, filters, data, ico, x, t - 1);
        lemma_packed_row_entry(pc, old_pa, filters, 0, g.spec_k(), 1, ico, t - 1);
        assert(cell_addr(g.spec_k(), 1, ico, t - 1) == ico * g.spec_k() + (t - 1));
        assert(pc.kernel_offsets@[t - 1] == g.spec_kernel_offset(t - 1));
        assert(pc.data_offsets@[x] == x * (g.stride as int));
    }
}

/// Every output cell the driver produces from a packed filter tensor equals
/// the reference convolution at that cell.  The statement does not mention
/// the microkernel's tile sizes: any microkernel choice yields the same
/// values.
pub proof fn lemma_conv_matches_reference<K: ConvKer>(
    pc: PackedConv<K>,
    g: ConvGeometry,
    old_pa: Seq<i64>,
    pa: Seq<i64>,
    filters: Seq<i64>,
    data: Seq<i64>,
    ico: int,
    x: int,
)
    requires
        describes(pc, g),
        old_pa.len() == pc.spec_packed_a_len(),
        pa == pc.spec_packed_a(old_pa, filters, 0, g.spec_k(), 1),
        0 <= ico < pc.co,
        0 <= x < pc.n,
    ensures
        pc.conv_cell(pa, data, ico, x) == g.naive_conv(filters, data, ico, x, g.spec_k()),
{
    lemma_dot_matches_naive(pc, g, old_pa, pa, filters, data, ico, x, pc.k as int);
}

/// Tile-size independence: two packings of the same filter tensor for two
/// microkernels, each driven over its own tiles and strides, agree at every
/// real output cell.
pub proof fn lemma_tile_size_independence<K1: ConvKer, K2: ConvKer>(
    pc1: PackedConv<K1>,
    pc2: PackedConv<K2>,
    g: ConvGeometry,
    old_pa1: Seq<i64>,
    old_pa2: Seq<i64>,
    pa1: Seq<i64>,
    pa2: Seq<i64>,
    filters: Seq<i64>,
    data: Seq<i64>,
    ico: int,
    x: int,
)
    requires
        describes(pc1, g),
        describes(pc2, g),
        old_pa1.len() == pc1.spec_packed_a_len(),
        old_pa2.len() == pc2.spec_packed_a_len(),
        pa1 == pc1.spec_packed_a(old_pa1, filters, 0, g.spec_k(), 1),
        pa2 == pc2.spec_packed_a(old_pa2, filters, 0, g.spec_k(), 1),
        0 <= ico < g.co,
        0 <= x < g.spec_output_width(),
    ensures
        pc1.conv_cell(pa1, data, ico, x) == pc2.conv_cell(pa2, data, ico, x),
{
    lemma_conv_matches_reference(pc1, g, old_pa1, pa1, filters, data, ico, x);
    lemma_conv_matches_reference(pc2, g, old_pa2, pa2, filters, data, ico, x);
}

/// A dot product of `t` steps reads only the first `t` kernel offsets.
proof fn lemma_dot_offsets_prefix(
    pa: Seq<i64>,
    base: int,
    mr: int,
    i: int,
    ko1: Seq<usize>,
    ko2: Seq<usize>,
    b: Seq<i64>,
    top: int,
    t: int,
)
    requires
        forall|u: int| 0 <= u < t ==> #[trigger] ko1[u] == ko2[u],
    ensures
        dot(pa, base, mr, i, ko1, b, top, t) == dot(pa, base, mr, i, ko2, b, top, t),
    decreases t,
{
    if t > 0 {
        lemma_dot_offsets_prefix(pa, base, mr, i, ko1, ko2, b, top, t - 1);
    }
}

/// Padding inertness: the replicated entries appended to either offset table
/// never influence a real output cell.  Two packings that agree on the real
/// entries give the same value everywhere, whatever their padded tails hold
/// and whatever their column-tile widths are; the rest of the claim is the
/// driver's own frame clause, which leaves every destination cell outside
/// the real rectangle untouched.
pub proof fn lemma_padding_inert<K1: ConvKer, K2: ConvKer>(
    pc1: PackedConv<K1>,
    pc2: PackedConv<K2>,
    pa: Seq<i64>,
    b: Seq<i64>,
    ico: int,
    x: int,
)
    requires
        pc1.wf(),
        pc2.wf(),
        pc1.k == pc2.k,
        pc1.co == pc2.co,
        pc1.n == pc2.n,
        pc1.spec_mr() == pc2.spec_mr(),
        forall|t: int|
            0 <= t < pc1.k ==> #[trigger] pc1.kernel_offsets@[t] == pc2.kernel_offsets@[t],
        forall|y: int| 0 <= y < pc1.n ==> #[trigger] pc1.data_offsets@[y] == pc2.data_offsets@[y],
        0 <= ico < pc1.co,
        0 <= x < pc1.n,
    ensures
        pc1.conv_cell(pa, b, ico, x) == pc2.conv_cell(pa, b, ico, x),
{
    lemma_dot_offsets_prefix(
        pa,
        (ico / pc1.spec_mr()) * (pc1.spec_mr() * (pc1.k as int)),
        pc1.spec_mr(),
        ico % pc1.spec_mr(),
        pc1.kernel_offsets@,
        pc2.kernel_offsets@,
        b,
        pc1.data_offsets@[x] as int,
        pc1.k as int,
    );
}

/// Idempotent packing: the packed buffer is a pure function of the source
/// tensor, the strides and the destination's prior contents.  Two
/// destinations with equal prior contents come out identical; when the
/// channel count fills every panel, the priors do not matter at all.
pub proof fn lemma_pack_idempotent<K: ConvKer>(
    pc: PackedConv<K>,
    old1: Seq<i64>,
    old2: Seq<i64>,
    a: Seq<i64>,
    a_base: int,
    rsa: int,
    csa: int,
)
    requires
        pc.wf(),
        old1.len() == pc.spec_packed_a_len(),
        old2.len() == old1.len(),
    ensures
        old1 == old2 ==> pc.spec_packed_a(old1, a, a_base, rsa, csa) == pc.spec_packed_a(
            old2,
            a,
            a_base,
            rsa,
            csa,
        ),
        (pc.co as int) % pc.spec_mr() == 0 ==> pc.spec_packed_a(old1, a, a_base, rsa, csa)
            == pc.spec_packed_a(old2, a, a_base, rsa, csa),
{
    let mr = pc.spec_mr();
    let kk = pc.k as int;
    if old1 == old2 {
        assert(pc.spec_packed_a(old1, a, a_base, rsa, csa) =~= pc.spec_packed_a(old2, a, a_base, rsa, csa));
    }
    if (pc.co as int) % mr == 0 {
        crate::conv::lemma_panels_split(pc.co as int, mr);
        assert forall|m: int|
            0 <= m < old1.len() implies pc.spec_packed_entry(old1, a, a_base, rsa, csa, m)
            == pc.spec_packed_entry(old2, a, a_base, rsa, csa, m) by {
            let p = m / (mr * kk);
            let r = m % (mr * kk);
            let i = r % mr;
            assert(mr * kk >= 1) by (nonlinear_arith)
                requires
                    1 <= mr,
                    1 <= kk,
            ;
            lemma_fundamental_div_mod(m, mr * kk);
            lemma_mod_bound(m, mr * kk);
            lemma_fundamental_div_mod(r, mr);
            lemma_mod_bound(r, mr);
            assert((mr * kk) * p == p * (mr * kk)) by (nonlinear_arith);
            if p <= -1 {
                assert(p * (mr * kk) <= -(mr * kk)) by (nonlinear_arith)
                    requires
                        p <= -1,
                        1 <= mr * kk,
                ;
            }
            assert(p < pc.spec_panels()) by {
                if p >= pc.spec_panels() {
                    lemma_mul_inequality(pc.spec_panels(), p, mr * kk);
                    assert(pc.spec_panels() * (mr * kk) == pc.spec_panels() * mr * kk)
                        by (nonlinear_arith);
                }
            }
            assert(p * mr + i < pc.co) by (nonlinear_arith)
                requires
                    p + 1 <= pc.spec_panels(),
                    pc.spec_panels() * mr == pc.co,
                    0 <= i < mr,
                    0 <= p,
            ;
        }
        assert(pc.spec_packed_a(old1, a, a_base, rsa, csa) =~= pc.spec_packed_a(old2, a, a_base, rsa, csa));
    }
}

/// Alignment contract: the reported alignment for the packed operand divides
/// the packed buffer's byte size (eight bytes per element), so an aligned
/// allocation of the queried length ends on an alignment boundary and the
/// last panel cannot overrun it.
pub proof fn lemma_alignment_divides_packed_bytes<K: ConvKer>(pc: PackedConv<K>)
    requires
        pc.wf(),
    ensures
        (8 * pc.spec_packed_a_len()) % (pc.ker.spec_alignment_a() as int) == 0,
{
    pc.ker.properties();
    let al = pc.ker.spec_alignment_a() as int;
    let mr = pc.spec_mr();
    let rest = pc.spec_panels() * (pc.k as int);
    lemma_fundamental_div_mod(8 * mr, al);
    let q0 = (8 * mr) / al;
    assert(8 * mr == al * q0);
    assert(8 * pc.spec_packed_a_len() == (8 * mr) * rest) by (nonlinear_arith)
        requires
            pc.spec_packed_a_len() == pc.spec_panels() * mr * (pc.k as int),
            rest == pc.spec_panels() * (pc.k as int),
    ;
    assert((al * q0) * rest == (q0 * rest) * al) by (nonlinear_arith);
    lemma_mod_multiples_basic(q0 * rest, al);
}

} // verus!
