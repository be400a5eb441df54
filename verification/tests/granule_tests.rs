//! Packed granules and the seek axis.
use oxideav_ogg::granule::{granule_is_keyframe, theora_frame_no, SeekKey};
use oxideav_ogg::theora::TheoraGranule;

#[test]
fn shift_zero_is_always_keyframe() {
    assert!(granule_is_keyframe(0, 0));
    assert!(granule_is_keyframe(1024, 0));
    assert!(granule_is_keyframe(i64::MAX, 0));
}

#[test]
fn negative_sentinel_is_keyframe() {
    assert!(granule_is_keyframe(-1, 6));
    assert!(granule_is_keyframe(-1, 0));
}

#[test]
fn theora_shift_offset_zero_is_keyframe() {
    assert!(granule_is_keyframe(0, 6));
    assert!(granule_is_keyframe(8192, 6));
    assert!(!granule_is_keyframe(30, 6));
    assert!(!granule_is_keyframe(4128, 6));
}

#[test]
fn degenerate_shift_is_keyframe_not_overflow() {
    assert!(granule_is_keyframe(123, 63));
    assert!(granule_is_keyframe(123, 64));
}

#[test]
fn keyframe_decision_agrees_with_frame_extraction() {
    for shift in [1u32, 4, 6, 10] {
        for kf in [0i64, 1, 5, 200] {
            let mask = (1i64 << shift) - 1;
            for off in [0i64, 1, mask] {
                let g = (kf << shift) | off;
                let is_kf = granule_is_keyframe(g, shift);
                assert_eq!(is_kf, off == 0, "g={g} shift={shift}");
                if is_kf {
                    assert_eq!(theora_frame_no(g, shift), kf);
                }
            }
        }
    }
}

#[test]
fn frame_numbers_add_both_halves() {
    assert_eq!(theora_frame_no((64 << 6) | 32, 6), 96);
    assert_eq!(theora_frame_no(-1, 6), -1);
    assert_eq!(theora_frame_no(77, 0), 77);
    assert_eq!(theora_frame_no(77, 63), 0);
    assert_eq!(theora_frame_no(77, 200), 0);
}

#[test]
fn sample_axis_takes_off_the_bias() {
    let key = SeekKey::identity_offset(1000, 312);
    assert_eq!(key.target_key, 1000);
    assert_eq!(key.key_of(1312), 1000);
    assert_eq!(key.key_of(100), 0);
    assert_eq!(key.key_of(-1), -1);
    assert_eq!(SeekKey::identity(5).key_of(44), 44);
}

#[test]
fn frame_axis_counts_from_the_header_origin() {
    let gran = TheoraGranule { shift: 6, count_from_one: true };
    let key = SeekKey::theora_frame_biased(10, gran);
    assert_eq!(key.key_of((5 << 6) | 2), 6);
    assert_eq!(key.key_of(-1), -1);
    let plain = SeekKey::theora_frame(10, 6);
    assert_eq!(plain.key_of((5 << 6) | 2), 7);
    assert_eq!(gran.frame_index((5 << 6) | 2), Some(6));
    assert_eq!(gran.keyframe_index((5 << 6) | 2), Some(4));
    assert_eq!(gran.frame_count((5 << 6) | 2), Some(7));
    assert_eq!(gran.frame_index(0), None);
    assert_eq!(gran.keyframe_index(0), None);
}
