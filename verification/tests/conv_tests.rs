use linalg::conv::PackedConv;
use linalg::geometry::ConvGeometry;
use linalg::kernel::ConvKer;
use linalg::kernel::GenericKer;

fn geometry(
    ci: usize,
    co: usize,
    kt: usize,
    stride: usize,
    dilation: usize,
    input_width: usize,
) -> ConvGeometry {
    ConvGeometry { ci, co, kt, stride, dilation, input_width }
}

/// The reference definition: direct accumulation over channels and taps.
fn naive(g: &ConvGeometry, filters: &[i64], data: &[i64]) -> Vec<i64> {
    let n = g.output_width();
    let mut out = vec![0i64; g.co * n];
    for x in 0..n {
        for ico in 0..g.co {
            let mut acc = 0i64;
            for ici in 0..g.ci {
                for ikt in 0..g.kt {
                    let f = filters[ici * g.kt + ikt + g.ci * g.kt * ico];
                    let d = data[x * g.stride + ikt * g.dilation + ici * g.input_width];
                    acc = acc.wrapping_add(f.wrapping_mul(d));
                }
            }
            out[x + ico * n] = acc;
        }
    }
    out
}

fn packed_for(g: &ConvGeometry, mr: usize, nr: usize) -> PackedConv<GenericKer> {
    let (ko, dof) = g.offsets();
    PackedConv::new(GenericKer::new(mr, nr), g.co, ko, dof)
}

fn run(g: &ConvGeometry, mr: usize, nr: usize, filters: &[i64], data: &[i64]) -> Vec<i64> {
    let pc = packed_for(g, mr, nr);
    let mut pa = vec![0i64; pc.packed_a_len()];
    pc.pack_a(&mut pa, &filters.to_vec(), 0, g.k() as isize, 1);
    let n = pc.n();
    let mut c = vec![9999i64; g.co * n];
    pc.conv(&pa, &data.to_vec(), &mut c, n, 1);
    c
}

#[test]
fn reference_two_channels() {
    // ci=2, co=1, kt=1: data is 2 channels x width 2, result [1*5+3*6, 2*5+4*6]
    let g = geometry(2, 1, 1, 1, 1, 2);
    let filters = [5i64, 6];
    let data = [1i64, 2, 3, 4];
    assert_eq!(g.output_width(), 2);
    let got = run(&g, 4, 4, &filters, &data);
    assert_eq!(got, vec![23, 34]);
    assert_eq!(naive(&g, &filters, &data), vec![23, 34]);
}

#[test]
fn row_tail_partial_panel() {
    // co=3 with mr=4: no full row-panel, only the partial-panel path runs
    let g = geometry(1, 3, 2, 1, 1, 5);
    let filters = [1i64, -2, 3, 4, -5, 6];
    let data = [7i64, -1, 2, 0, 5];
    let expect = naive(&g, &filters, &data);
    assert_eq!(run(&g, 4, 4, &filters, &data), expect);
    assert_eq!(run(&g, 4, 2, &filters, &data), expect);
}

#[test]
fn column_tail_single() {
    // n=5 with nr=4: one full column-panel plus one 1-wide tail
    let g = geometry(1, 2, 2, 1, 1, 6);
    let filters = [2i64, -1, 0, 3];
    let data = [1i64, 2, 3, 4, 5, 6];
    assert_eq!(g.output_width(), 5);
    let expect = naive(&g, &filters, &data);
    let got = run(&g, 2, 4, &filters, &data);
    for x in 0..5 {
        for ico in 0..2 {
            assert_eq!(got[x + ico * 5], expect[x + ico * 5]);
        }
    }
}

#[test]
fn tile_size_independence() {
    let g = geometry(2, 3, 2, 2, 2, 9);
    let filters: Vec<i64> = (0..12).map(|v| (v * v - 7) as i64).collect();
    let data: Vec<i64> = (0..18).map(|v| (3 * v - 10) as i64).collect();
    let expect = naive(&g, &filters, &data);
    for (mr, nr) in [(1, 1), (2, 3), (4, 4), (7, 5)] {
        assert_eq!(run(&g, mr, nr, &filters, &data), expect, "mr={} nr={}", mr, nr);
    }
}

#[test]
fn strided_dilated_matches_reference() {
    let g = geometry(3, 2, 2, 3, 2, 12);
    let filters: Vec<i64> = (0..12).map(|v| (5 - v) as i64).collect();
    let data: Vec<i64> = (0..36).map(|v| ((v * 7) % 13 - 6) as i64).collect();
    assert_eq!(g.kernel_field(), 3);
    assert_eq!(g.output_width(), 4);
    let expect = naive(&g, &filters, &data);
    assert_eq!(run(&g, 4, 4, &filters, &data), expect);
    assert_eq!(run(&g, 2, 2, &filters, &data), expect);
}

#[test]
fn padding_never_touches_destination() {
    // destination rows are wider than the real output: the extra cells keep
    // their sentinel, tails included
    let g = geometry(1, 3, 2, 1, 1, 6);
    let n = g.output_width();
    let wide = n + 5;
    let filters = [1i64, 2, 3, 4, 5, 6];
    let data = [9i64, 8, 7, 6, 5, 4];
    let pc = packed_for(&g, 2, 4);
    let mut pa = vec![0i64; pc.packed_a_len()];
    pc.pack_a(&mut pa, &filters.to_vec(), 0, g.k() as isize, 1);
    let mut c = vec![777i64; g.co * wide];
    pc.conv(&pa, &data.to_vec(), &mut c, wide, 1);
    let expect = naive(&g, &filters, &data);
    for ico in 0..g.co {
        for x in 0..n {
            assert_eq!(c[ico * wide + x], expect[x + ico * n]);
        }
        for x in n..wide {
            assert_eq!(c[ico * wide + x], 777);
        }
    }
}

#[test]
fn packing_is_idempotent() {
    // equal prior contents give byte-identical packed buffers
    let g = geometry(1, 3, 2, 1, 1, 5);
    let filters = [1i64, 2, 3, 4, 5, 6];
    let pc = packed_for(&g, 4, 4);
    let mut pa1 = vec![0i64; pc.packed_a_len()];
    let mut pa2 = vec![0i64; pc.packed_a_len()];
    pc.pack_a(&mut pa1, &filters.to_vec(), 0, g.k() as isize, 1);
    pc.pack_a(&mut pa2, &filters.to_vec(), 0, g.k() as isize, 1);
    assert_eq!(pa1, pa2);
}

#[test]
fn packing_full_panels_ignores_prior_contents() {
    // co a multiple of mr: every slot is written, so the priors cannot show
    let g = geometry(2, 4, 1, 1, 1, 3);
    let filters = [4i64, -4, 2, -2, 1, -1, 3, -3];
    let pc = packed_for(&g, 2, 2);
    let mut pa1 = vec![0i64; pc.packed_a_len()];
    let mut pa2 = vec![123i64; pc.packed_a_len()];
    pc.pack_a(&mut pa1, &filters.to_vec(), 0, g.k() as isize, 1);
    pc.pack_a(&mut pa2, &filters.to_vec(), 0, g.k() as isize, 1);
    assert_eq!(pa1, pa2);
}

#[test]
fn packed_layout_is_panel_major() {
    // co=3, mr=2, k=2: panel 0 holds rows 0..2 step-major, panel 1 row 2
    let g = geometry(1, 3, 2, 1, 1, 4);
    let filters = [10i64, 11, 20, 21, 30, 31];
    let pc = packed_for(&g, 2, 2);
    assert_eq!(pc.packed_a_len(), 8);
    let mut pa = vec![0i64; 8];
    pc.pack_a(&mut pa, &filters.to_vec(), 0, g.k() as isize, 1);
    assert_eq!(pa, vec![10, 20, 11, 21, 30, 0, 31, 0]);
}

#[test]
fn alignment_divides_packed_bytes() {
    for (ci, co, kt) in [(1, 3, 2), (2, 4, 1), (3, 5, 3)] {
        let g = geometry(ci, co, kt, 1, 1, kt + 3);
        for (mr, nr) in [(1, 1), (2, 4), (4, 4), (5, 3)] {
            let pc = packed_for(&g, mr, nr);
            let bytes = 8 * pc.packed_a_len();
            assert_eq!(bytes % pc.packed_a_alignment(), 0);
        }
    }
}

#[test]
fn offset_tables_hold_the_geometry() {
    let g = geometry(2, 1, 3, 2, 2, 10);
    let (ko, dof) = g.offsets();
    assert_eq!(ko, vec![0, 2, 4, 10, 12, 14]);
    assert_eq!(g.output_width(), 3);
    assert_eq!(dof, vec![0, 2, 4]);
}

#[test]
fn offset_tables_are_padded_by_replication() {
    let g = geometry(1, 1, 3, 1, 1, 5);
    let pc = packed_for(&g, 2, 4);
    // k=3 padded to 4, n=3 padded to 4, both by repeating the last entry
    assert_eq!(pc.k, 3);
    assert_eq!(pc.n, 3);
    assert_eq!(pc.kernel_offsets, vec![0, 1, 2, 2]);
    assert_eq!(pc.data_offsets, vec![0, 1, 2, 2]);
}

#[test]
fn geometry_queries() {
    let g = geometry(3, 2, 4, 2, 3, 20);
    assert_eq!(g.k(), 12);
    assert_eq!(g.kernel_field(), 10);
    assert_eq!(g.output_width(), 6);
    let pc = packed_for(&g, 4, 4);
    assert_eq!(pc.co(), 2);
    assert_eq!(pc.n(), 6);
    // ceil(2/4) = 1 panel of 4 rows x 12 steps
    assert_eq!(pc.packed_a_len(), 48);
    assert!(pc.describe().contains("generic"));
}

#[test]
fn kernel_queries() {
    let ker = GenericKer::new(6, 5);
    assert_eq!(ker.mr(), 6);
    assert_eq!(ker.nr(), 5);
    assert_eq!(ker.name(), "generic");
    assert_eq!(ker.alignment_bytes_a(), 8);
    assert_eq!(ker.alignment_bytes_b(), 8);
}

#[test]
fn accumulation_wraps_like_the_reference() {
    let g = geometry(1, 1, 1, 1, 1, 1);
    let filters = [2i64];
    let data = [i64::MAX];
    let expect = naive(&g, &filters, &data);
    assert_eq!(expect, vec![i64::MAX.wrapping_mul(2)]);
    assert_eq!(run(&g, 3, 2, &filters, &data), expect);
}

#[test]
fn output_strides_transpose() {
    // column-major destination: rsc=1, csc=co
    let g = geometry(1, 2, 2, 1, 1, 5);
    let n = g.output_width();
    let filters = [1i64, 2, -1, 3];
    let data = [5i64, 4, 3, 2, 1];
    let pc = packed_for(&g, 2, 2);
    let mut pa = vec![0i64; pc.packed_a_len()];
    pc.pack_a(&mut pa, &filters.to_vec(), 0, g.k() as isize, 1);
    let mut c = vec![0i64; g.co * n];
    pc.conv(&pa, &data.to_vec(), &mut c, 1, g.co);
    let expect = naive(&g, &filters, &data);
    for ico in 0..g.co {
        for x in 0..n {
            assert_eq!(c[ico + x * g.co], expect[x + ico * n]);
        }
    }
}

#[test]
fn pack_with_negative_stride() {
    // the same tensor stored with each row reversed packs identically when
    // addressed with a base and a negative step stride
    let g = geometry(1, 2, 3, 1, 1, 5);
    let filters = [1i64, 2, 3, 4, 5, 6];
    let reversed = [3i64, 2, 1, 6, 5, 4];
    let pc = packed_for(&g, 2, 2);
    let mut pa_fwd = vec![0i64; pc.packed_a_len()];
    let mut pa_rev = vec![0i64; pc.packed_a_len()];
    pc.pack_a(&mut pa_fwd, &filters.to_vec(), 0, 3, 1);
    pc.pack_a(&mut pa_rev, &reversed.to_vec(), 2, 3, -1);
    assert_eq!(pa_fwd, pa_rev);

    let data = [7i64, -1, 2, 0, 5];
    let n = pc.n();
    let mut c = vec![0i64; g.co * n];
    pc.conv(&pa_rev, &data.to_vec(), &mut c, n, 1);
    assert_eq!(c, naive(&g, &filters, &data));
}

#[test]
fn generated_line_filter() {
    assert!(!linalg::tidy::keep_generated_line("#![allow(dead_code)]"));
    assert!(!linalg::tidy::keep_generated_line("#!["));
    assert!(linalg::tidy::keep_generated_line("# ![x]"));
    assert!(linalg::tidy::keep_generated_line("fn f() {}"));
    assert!(linalg::tidy::keep_generated_line(""));
    assert!(linalg::tidy::keep_generated_line("#!"));
    assert!(linalg::tidy::keep_generated_line("  #![indented]"));
}

#[test]
fn describe_shows_padded_table_lengths() {
    // k=3 padded to 4, n=3 padded to 4 under nr=4
    let g = geometry(1, 1, 3, 1, 1, 5);
    let pc = packed_for(&g, 2, 4);
    assert_eq!(pc.describe(), "Conv co:1 k:4 centers:4 (generic 2x4)");
}
