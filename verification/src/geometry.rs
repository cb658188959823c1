//! Convolution geometry and the two offset tables derived from it.
//!
//! The kernel-offset table says, for each contraction step, where that step
//! reads relative to the start of one output position's receptive field; the
//! data-offset table says, for each output position, where its receptive field
//! begins relative to the input base.  Together they replace any physical
//! rearrangement of the input tensor.

use vstd::prelude::*;
use vstd::arithmetic::div_mod::lemma_fundamental_div_mod;
use vstd::arithmetic::div_mod::lemma_mod_bound;
use vstd::arithmetic::div_mod::lemma_fundamental_div_mod_converse;
use vstd::arithmetic::mul::lemma_mul_inequality;

verus! {

/// Geometry of a 1-D strided, dilated convolution: channel counts, kernel
/// extent, stride, dilation and the spatial width of the input.
#[derive(Clone, Copy, Debug, PartialEq, Eq, Structural)]
pub struct ConvGeometry {
    /// Input channel count.
    pub ci: usize,
    /// Output channel count.
    pub co: usize,
    /// Kernel (temporal) extent.
    pub kt: usize,
    /// Stride between consecutive receptive fields.
    pub stride: usize,
    /// Dilation between consecutive kernel taps.
    pub dilation: usize,
    /// Spatial width of one input channel.
    pub input_width: usize,
}

impl ConvGeometry {
    /// Contraction length of the implied matrix multiply.
    pub open spec fn spec_k(self) -> int {
        (self.ci as int) * (self.kt as int)
    }

    /// Width of the input span one output position reads.
    pub open spec fn spec_kernel_field(self) -> int {
        (self.dilation as int) * (self.kt as int - 1) + 1
    }

    /// Number of output positions along the spatial axis.
    pub open spec fn spec_output_width(self) -> int {
        (self.input_width as int - self.spec_kernel_field()) / (self.stride as int) + 1
    }

    /// Where contraction step `t` reads, relative to the start of a receptive
    /// field: kernel taps run innermost, input channels outermost.
    pub open spec fn spec_kernel_offset(self, t: int) -> int {
        (t % (self.kt as int)) * (self.dilation as int) + (t / (self.kt as int)) * (
        self.input_width as int)
    }

    /// A resolved, valid geometry: every count is positive, the kernel field
    /// fits in the input, and the buffers the geometry implies are addressable.
    pub open spec fn wf(self) -> bool {
        &&& 1 <= self.ci
        &&& 1 <= self.co
        &&& 1 <= self.kt
        &&& 1 <= self.stride
        &&& 1 <= self.dilation
        &&& self.spec_kernel_field() <= self.input_width
        &&& (self.ci as int) * (self.input_width as int) <= usize::MAX
        &&& (self.ci as int) * (self.kt as int) <= usize::MAX
    }

    /// Contraction length `k`.
    pub fn k(&self) -> (r: usize)
        requires
            self.wf(),
        ensures
            r == self.spec_k(),
    {
        self.ci * self.kt
    }

    /// Effective kernel field width.
    pub fn kernel_field(&self) -> (r: usize)
        requires
            self.wf(),
        ensures
            r == self.spec_kernel_field(),
    {
        proof {
            assert((self.dilation as int) * (self.kt as int - 1) + 1 <= self.input_width as int);
        }
        self.dilation * (self.kt - 1) + 1
    }

    /// Output width `n`.
    pub fn output_width(&self) -> (r: usize)
        requires
            self.wf(),
        ensures
            r == self.spec_output_width(),
            1 <= r,
    {
        let field = self.kernel_field();
        (self.input_width - field) / self.stride + 1
    }

    /// Builds the two offset tables, unpadded: kernel offsets of length `k`
    /// (channels outer, kernel taps inner, so that step `t` of a packed row
    /// lines up with step `t` of the table) and data offsets of length `n`
    /// (one stride per output position).
    pub fn offsets(&self) -> (r: (Vec<usize>, Vec<usize>))
        requires
            self.wf(),
        ensures
            r.0@.len() == self.spec_k(),
            forall|t: int| 0 <= t < r.0@.len() ==> #[trigger] r.0@[t] == self.spec_kernel_offset(t),
            r.1@.len() == self.spec_output_width(),
            forall|x: int| 0 <= x < r.1@.len() ==> #[trigger] r.1@[x] == x * (self.stride as int),
    {
        let n = self.output_width();
        let field = self.kernel_field();
        proof {
            lemma_fundamental_div_mod(self.input_width - field, self.stride as int);
            lemma_mod_bound(self.input_width - field, self.stride as int);
            assert((self.stride as int) * (n - 1) == (n - 1) * (self.stride as int))
                by (nonlinear_arith);
        }
        let mut data_offsets: Vec<usize> = Vec::new();
        let mut x: usize = 0;
        while x < n
            invariant
                self.wf(),
                x <= n,
                n == self.spec_output_width(),
                field == self.spec_kernel_field(),
                (n - 1) * (self.stride as int) <= self.input_width - field,
                data_offsets@.len() == x,
                forall|y: int|
                    0 <= y < x ==> #[trigger] data_offsets@[y] == y * (self.stride as int),
            decreases n - x,
        {
            proof {
                lemma_mul_inequality(x as int, n as int - 1, self.stride as int);
            }
            data_offsets.push(x * self.stride);
            x += 1;
        }
        let mut kernel_offsets: Vec<usize> = Vec::new();
        let mut ici: usize = 0;
        while ici < self.ci
            invariant
                self.wf(),
                ici <= self.ci,
                kernel_offsets@.len() == (ici as int) * (self.kt as int),
                forall|t: int|
                    0 <= t < kernel_offsets@.len() ==> #[trigger] kernel_offsets@[t]
                        == self.spec_kernel_offset(t),
            decreases self.ci - ici,
        {
            let mut ikt: usize = 0;
            while ikt < self.kt
                invariant
                    self.wf(),
                    ici < self.ci,
                    ikt <= self.kt,
                    kernel_offsets@.len() == (ici as int) * (self.kt as int) + ikt,
                    forall|t: int|
                        0 <= t < kernel_offsets@.len() ==> #[trigger] kernel_offsets@[t]
                            == self.spec_kernel_offset(t),
                decreases self.kt - ikt,
            {
                proof {
                    assert((ikt as int) * (self.dilation as int) + (ici as int) * (
                    self.input_width as int) < (self.ci as int) * (self.input_width as int))
                        by (nonlinear_arith)
                        requires
                            0 <= ikt < self.kt,
                            0 <= ici < self.ci,
                            1 <= self.dilation,
                            1 <= self.stride,
                            (self.dilation as int) * (self.kt as int - 1) + 1
                                <= self.input_width as int,
                    ;
                }
                let off = ikt * self.dilation + ici * self.input_width;
                proof {
                    assert((ici as int) * (self.kt as int) + ikt < (self.ci as int) * (
                    self.kt as int)) by (nonlinear_arith)
                        requires
                            0 <= ikt < self.kt,
                            0 <= ici < self.ci,
                    ;
                    lemma_fundamental_div_mod_converse(
                        (ici as int) * (self.kt as int) + ikt,
                        self.kt as int,
                        ici as int,
                        ikt as int,
                    );
                }
                kernel_offsets.push(off);
                ikt += 1;
            }
            proof {
                assert((ici as int + 1) * (self.kt as int) == (ici as int) * (self.kt as int)
                    + self.kt) by (nonlinear_arith);
            }
            ici += 1;
        }
        (kernel_offsets, data_offsets)
    }

    /// The reference definition of the convolution: output element
    /// `(ico, x)` is the sum of the first `t` contraction terms,
    /// `filters[ico*k + u] * data[x*stride + offset(u)]`, accumulated in
    /// step order with wrapping arithmetic.
    pub open spec fn naive_conv(
        self,
        filters: Seq<i64>,
        data: Seq<i64>,
        ico: int,
        x: int,
        t: int,
    ) -> i64
        decreases t,
    {
        if t <= 0 {
            0i64
        } else {
            vstd::wrapping::i64_specs::wrapping_add(
                self.naive_conv(filters, data, ico, x, t - 1),
                vstd::wrapping::i64_specs::wrapping_mul(
                    filters[ico * self.spec_k() + (t - 1)],
                    data[x * (self.stride as int) + self.spec_kernel_offset(t - 1)],
                ),
            )
        }
    }
}

} // verus!
