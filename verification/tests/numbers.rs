use gpu_gates::bits::{
    bits_equal, find_nonfinite, id_below, is_at_most, is_finite, is_less, is_nan, max_ulps,
    narrowed, same_bits, ulps, view_flat,
};
use gpu_gates::gate::{bytes_to_words, checks_failed, comma_list, verdict, Fnv1a64};
use gpu_gates::ik_q8_2::{block_sum, folded, half_sum, Q8Block};
use gpu_gates::model_file::{
    activations, check_routing, eos_token_id, exit_lines, expect_arch, f32_tensor, gemv_fits,
    is_f32_of, kquant_d_at, rank_ids, ref_dir, ref_dir_named, rel_err_scale, row_bytes,
    span_inside, tensor_is, GgmlType, IdValue, RelError, RouteError, RowError, SetPlace, NAN_F16,
};
use gpu_gates::oracle::Arch;
use gpu_gates::rank::top;
use gpu_gates::rounding::butterfly;

fn bits(v: &[f32]) -> Vec<u32> {
    v.iter().map(|x| x.to_bits()).collect()
}

/// An output or reference that is not finite is refused before the fold that
/// would drop it; equal lists have the scale of the reference.
#[test]
fn max_rel_err_rejects_nan_output() {
    let y_ref = bits(&[1.0, -2.0, 3.0]);
    assert!(rel_err_scale(&bits(&[f32::NAN; 3]), &y_ref).is_err());
    assert_eq!(
        rel_err_scale(&bits(&[1.0, f32::NAN, 3.0]), &y_ref),
        Err(RelError::Output(1))
    );
    assert!(rel_err_scale(&bits(&[1.0, f32::INFINITY, 3.0]), &y_ref).is_err());
    assert_eq!(
        rel_err_scale(&bits(&[1.0, -2.0, 3.0]), &bits(&[1.0, f32::NAN, 3.0])),
        Err(RelError::Reference(1))
    );
    assert_eq!(
        rel_err_scale(&bits(&[1.0, -2.0, 3.0]), &y_ref),
        Ok(3.0f32.to_bits())
    );
    assert_eq!(
        rel_err_scale(&bits(&[1.0]), &y_ref),
        Err(RelError::Length)
    );
    assert_eq!(
        rel_err_scale(&bits(&[0.0, 1.0]), &bits(&[0.0, -0.0])),
        Err(RelError::AllZero)
    );
}

/// The bytes of the super-block scale; a type without one is refused by name.
#[test]
fn kquant_d_at_is_the_scale_every_value_reads() {
    assert_eq!(kquant_d_at(GgmlType::Q3_K), Ok(108));
    assert_eq!(kquant_d_at(GgmlType::Q4_K), Ok(0));
    assert_eq!(kquant_d_at(GgmlType::Q6_K), Ok(208));
    assert_eq!(kquant_d_at(GgmlType::Q8_0), Err(GgmlType::Q8_0));
    assert_eq!(NAN_F16, 0x7e00);
}

/// The float predicates agree with the machine's on their bits.
#[test]
fn bit_predicates_are_the_floats() {
    let v = [
        0.0f32,
        -0.0,
        1.0,
        -1.0,
        f32::MIN_POSITIVE,
        1e-45,
        f32::MAX,
        f32::MIN,
        f32::INFINITY,
        f32::NEG_INFINITY,
        f32::NAN,
    ];
    for a in v {
        assert_eq!(is_finite(a.to_bits()), a.is_finite());
        assert_eq!(is_nan(a.to_bits()), a.is_nan());
        for b in v {
            assert_eq!(is_less(a.to_bits(), b.to_bits()), a < b, "{a} < {b}");
            let (x, y) = (f64::from(a), f64::from(b));
            assert_eq!(is_at_most(x.to_bits(), y.to_bits()), x <= y, "{x} <= {y}");
        }
    }
    assert_eq!(find_nonfinite(&bits(&[1.0, f32::NAN, f32::NAN])), Some(1));
    assert_eq!(find_nonfinite(&bits(&[1.0])), None);
}

/// Distances in ulps: both zeros are one point, and the distance is the same
/// both ways.
#[test]
fn ulps_count_the_values_between() {
    let one = 1.0f32.to_bits();
    assert_eq!(ulps(one, one + 3), 3);
    assert_eq!(ulps(one + 3, one), 3);
    assert_eq!(ulps(0.0f32.to_bits(), (-0.0f32).to_bits()), 0);
    assert_eq!(ulps(1, 0x8000_0001), 2);
    assert_eq!(max_ulps(&[one, one], &[one + 1, one - 2]), 2);
    assert_eq!(max_ulps(&[], &[one]), 0);
    assert_eq!(same_bits(&[1, 2, 3], &[1, 5, 3, 4]), 2);
    assert!(bits_equal(&[1, 2], &[1, 2]));
    assert!(!bits_equal(&[0], &[0x8000_0000]));
    assert!(!bits_equal(&[1], &[1, 2]));
    assert!(view_flat(&[2, 3], &[1, 2, 3, 4], 1).is_ok());
    assert!(view_flat(&[2, 4], &[1, 2, 3, 4], 1).is_err());
    assert!(view_flat(&[4, 5], &[1, 2, 3, 4], 3).is_err());
}

/// A half's exact widening narrows back to it, and no other single narrows.
#[test]
fn narrowing_undoes_widening() {
    let widen = |h: u16| -> f32 {
        let sign = if h & 0x8000 != 0 { -1.0 } else { 1.0 };
        let e = i32::from((h >> 10) & 31);
        let m = f32::from(h & 0x3ff);
        match e {
            0 => sign * m * 2.0f32.powi(-24),
            31 => sign * f32::INFINITY,
            _ => sign * (1.0 + m / 1024.0) * 2.0f32.powi(e - 15),
        }
    };
    for h in 0..=u16::MAX {
        if (h >> 10) & 31 == 31 && h & 0x3ff != 0 {
            continue;
        }
        assert_eq!(narrowed(widen(h).to_bits()), Some(h), "{h:#06x}");
    }
    for bad in [0.1f32, 65536.0, 1e-8, 1.0 + f32::EPSILON] {
        assert_eq!(narrowed(bad.to_bits()), None, "{bad}");
    }
    assert_eq!(id_below(63.0f32.to_bits(), 64), Some(63));
    assert_eq!(id_below(64.0f32.to_bits(), 64), None);
    assert_eq!(id_below(0.5f32.to_bits(), 64), None);
    assert_eq!(id_below((-1.0f32).to_bits(), 64), None);
    assert_eq!(id_below(0.0f32.to_bits(), 64), Some(0));
}

/// FNV-1a over bytes and words, one digest whatever the pieces.
#[test]
fn a_digest_continues_over_pieces() {
    assert_eq!(Fnv1a64::default().value(), 0xcbf2_9ce4_8422_2325);
    assert_eq!(
        Fnv1a64::default().bytes(b"a").value(),
        0xaf63_dc4c_8601_ec8c
    );
    assert_eq!(
        Fnv1a64::default().bytes(b"foo").bytes(b"bar").value(),
        0x8594_4171_f739_67e8
    );
    assert_eq!(
        Fnv1a64::default().u32s(&[0x0403_0201]).value(),
        Fnv1a64::default().bytes(&[1, 2, 3, 4]).value()
    );
}

/// Words are little-endian, the last one padded with zeros.
#[test]
fn bytes_pack_into_words() {
    assert_eq!(bytes_to_words(&[1, 2, 3, 4, 5]), [0x0403_0201, 5]);
    assert!(bytes_to_words(&[]).is_empty());
}

/// The words a gate prints.
#[test]
fn a_gate_prints_its_words() {
    assert_eq!((verdict(true), verdict(false)), ("PASS", "FAIL"));
    assert_eq!(
        checks_failed(),
        "FAILED: one or more checks above did not pass"
    );
    assert_eq!(comma_list(&[3, 1, 2]), "3,1,2");
    assert_eq!(comma_list::<u32>(&[]), "");
    assert_eq!(comma_list(&["a"]), "a");
    assert_eq!(
        exit_lines("tool", "it broke", &["why".to_string()]),
        ["tool: it broke", "  caused by: why"]
    );
    assert_eq!(exit_lines("tool", "tool: x", &[]), ["tool: x"]);
}

/// The sign-folded product is the plain dot product of a block.
#[test]
fn a_block_sum_is_its_dot_product() {
    let mut q = [0i8; 32];
    let mut a = vec![0i8; 32];
    for i in 0..32 {
        q[i] = (i as i8) * 7 - 100;
        a[i] = 127 - (i as i8) * 8;
    }
    let w = Q8Block { d: 0, q };
    let dot: i32 = (0..32).map(|i| i32::from(q[i]) * i32::from(a[i])).sum();
    assert_eq!(block_sum(&w, &a), dot);
    assert_eq!(half_sum(&w, &a, 0) + half_sum(&w, &a, 1), dot);
    assert_eq!(folded(-3, 5), -5);
    assert_eq!(folded(3, 5), 5);
    assert_eq!(folded(0, 5), 0);
}

/// The butterfly's order is the order of its rounds, not a left fold's.
#[test]
fn the_butterfly_sums_in_its_own_order() {
    let mut v = [0u64; 32];
    for (i, x) in v.iter_mut().enumerate() {
        *x = i as u64 * i as u64;
    }
    assert_eq!(butterfly(v), (0..32u64).map(|i| i * i).sum::<u64>());
}

/// Activations are the generator's: a 32-bit LCG's high half, in 32768ths.
#[test]
fn activations_come_from_the_generator() {
    let v = activations(4, 2, 1);
    assert_eq!(v.len(), 8);
    assert!(v.iter().all(|x| (-32768..32768).contains(x)));
    assert_eq!(v, activations(8, 1, 1));
    assert_ne!(v, activations(8, 1, 2));
}

/// The ranking puts the larger first, the lower index of two as large.
#[test]
fn ranks_break_ties_low() {
    assert_eq!(top(&[5, 9, 5, 9, 1], 4), [1, 3, 0, 2]);
    assert!(top(&[1, 2], 0).is_empty());
    assert_eq!(rank_ids(&bits(&[0.25, 0.5, 0.25]), 2), [1, 0]);
    assert_eq!(check_routing(&bits(&[1.0, 2.0]), 1, 2), Ok(()));
    assert_eq!(
        check_routing(&bits(&[1.0, 2.0]), 1, 3),
        Err(RouteError::Length)
    );
    assert_eq!(
        check_routing(&bits(&[1.0, f32::NAN]), 1, 2),
        Err(RouteError::NonFinite(1))
    );
}

/// A tensor's row, type, dims and bytes.
#[test]
fn a_tensor_is_checked_before_it_is_read() {
    assert_eq!(row_bytes(Some(256), Some(144), 2048), Ok(1152));
    assert_eq!(row_bytes(Some(256), Some(144), 100), Err(RowError::Width));
    assert_eq!(row_bytes(None, Some(144), 256), Err(RowError::Unsupported));
    assert!(tensor_is(
        GgmlType::Q3_K,
        &[2, 3],
        GgmlType::Q3_K,
        Some(&[2, 3])
    ));
    assert!(!tensor_is(GgmlType::Q3_K, &[2, 3], GgmlType::F32, None));
    assert!(!tensor_is(
        GgmlType::F32,
        &[2, 3],
        GgmlType::F32,
        Some(&[3, 2])
    ));
    assert_eq!(
        f32_tensor(&1.0f32.to_le_bytes(), 1),
        Some(vec![1.0f32.to_bits()])
    );
    assert_eq!(f32_tensor(&[0, 0, 0], 1), None);
    assert!(is_f32_of(GgmlType::F32, &[2, 3], 6) && !is_f32_of(GgmlType::F16, &[6], 6));
    assert!(gemv_fits(12, 4, 3, 10, 5, 2) && !gemv_fits(11, 4, 3, 10, 5, 2));
    assert!(span_inside(2, 3, 5) && !span_inside(3, 3, 5));
    assert!(!span_inside(usize::MAX, 2, 5));
    assert_eq!(eos_token_id(Some(IdValue::U32(7))), Some(7));
    assert_eq!(eos_token_id(Some(IdValue::I32(-1))), None);
    assert_eq!(eos_token_id(None), None);
    assert!(expect_arch(Some("qwen3moe"), Arch::Qwen3moe));
    assert!(!expect_arch(None, Arch::Qwen3moe));
}

/// Where a set lies: a directory given whole, or a name under the data
/// directory.
#[test]
fn a_set_lies_where_its_name_says() {
    assert!(matches!(ref_dir_named("ref"), SetPlace::Data(s) if s == "ref"));
    assert!(matches!(
        ref_dir(Some("/d"), Some("ref")),
        SetPlace::Directory(s) if s == "/d"
    ));
    assert!(!matches!(ref_dir(None, Some("x")), SetPlace::Directory(_)));
}
