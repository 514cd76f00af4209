use mp4handler::frame_similarity::{
    calculate_similarity, frame_diff_similarity, gray_frame_of, histogram_similarity,
    ssim_similarity, GrayFrame, SimilarityAlgorithm, SimilarityError, SCALE,
};
use mp4handler::roots::isqrt;

const ALGORITHMS: [SimilarityAlgorithm; 3] = [
    SimilarityAlgorithm::Histogram,
    SimilarityAlgorithm::SSIM,
    SimilarityAlgorithm::FrameDiff,
];

fn frame(width: u32, height: u32, pixels: &[u8]) -> GrayFrame {
    GrayFrame::new(width, height, pixels.to_vec()).unwrap()
}

#[test]
fn algorithm_names_are_read() {
    assert_eq!(SimilarityAlgorithm::from_str("histogram"), Ok(SimilarityAlgorithm::Histogram));
    assert_eq!(SimilarityAlgorithm::from_str("ssim"), Ok(SimilarityAlgorithm::SSIM));
    assert_eq!(SimilarityAlgorithm::from_str("frame_diff"), Ok(SimilarityAlgorithm::FrameDiff));
}

#[test]
fn other_names_are_unknown() {
    for name in ["", "SSIM", "histogram ", "frame-diff", "psnr"] {
        assert_eq!(
            SimilarityAlgorithm::from_str(name),
            Err(SimilarityError::UnknownAlgorithm)
        );
    }
}

#[test]
fn a_frame_needs_one_intensity_for_each_pixel() {
    assert!(GrayFrame::new(2, 2, vec![1, 2, 3]).is_none());
    assert!(GrayFrame::new(2, 2, vec![1, 2, 3, 4, 5]).is_none());
    let f = GrayFrame::new(3, 2, vec![1, 2, 3, 4, 5, 6]).unwrap();
    assert_eq!(f.width(), 3);
    assert_eq!(f.height(), 2);
    assert_eq!(f.pixels(), &vec![1, 2, 3, 4, 5, 6]);
    assert!(GrayFrame::new(0, 7, vec![]).is_some());
}

#[test]
fn identical_frames_score_exactly_one() {
    let samples: [&[u8]; 4] = [
        &[0, 0, 0, 0],
        &[255, 255, 255, 255],
        &[0, 64, 128, 255],
        &[17, 17, 200, 3],
    ];
    for pixels in samples {
        let a = frame(2, 2, pixels);
        let b = frame(2, 2, pixels);
        for algorithm in ALGORITHMS {
            assert_eq!(calculate_similarity(&a, &b, algorithm), Ok(SCALE));
            assert_eq!(calculate_similarity(&a, &a, algorithm), Ok(SCALE));
        }
    }
}

#[test]
fn empty_frames_score_one() {
    let a = frame(0, 0, &[]);
    let b = frame(0, 0, &[]);
    for algorithm in ALGORITHMS {
        assert_eq!(calculate_similarity(&a, &b, algorithm), Ok(SCALE));
    }
}

#[test]
fn scores_do_not_depend_on_the_order_of_the_frames() {
    let a = frame(3, 2, &[10, 20, 30, 40, 50, 60]);
    let b = frame(3, 2, &[12, 18, 33, 41, 48, 70]);
    for algorithm in ALGORITHMS {
        assert_eq!(
            calculate_similarity(&a, &b, algorithm),
            calculate_similarity(&b, &a, algorithm)
        );
    }
}

#[test]
fn frames_of_different_size_do_not_compare() {
    let a = frame(3, 2, &[1, 2, 3, 4, 5, 6]);
    let b = frame(2, 3, &[1, 2, 3, 4, 5, 6]);
    let c = frame(3, 1, &[1, 2, 3]);
    for algorithm in ALGORITHMS {
        assert_eq!(
            calculate_similarity(&a, &b, algorithm),
            Err(SimilarityError::DimensionMismatch {
                width: 3,
                height: 2,
                other_width: 2,
                other_height: 3
            })
        );
        assert_eq!(
            calculate_similarity(&c, &a, algorithm),
            Err(SimilarityError::DimensionMismatch {
                width: 3,
                height: 1,
                other_width: 3,
                other_height: 2
            })
        );
    }
}

#[test]
fn frame_difference_is_one_minus_the_mean_distance() {
    assert_eq!(frame_diff_similarity(&frame(2, 1, &[10, 20]), &frame(2, 1, &[20, 10])), Ok(960_784));
    assert_eq!(
        frame_diff_similarity(&frame(2, 2, &[0, 0, 0, 0]), &frame(2, 2, &[255, 255, 255, 255])),
        Ok(0)
    );
    assert_eq!(
        frame_diff_similarity(&frame(2, 2, &[0, 64, 128, 255]), &frame(2, 2, &[255, 128, 64, 0])),
        Ok(374_509)
    );
    assert_eq!(
        frame_diff_similarity(&frame(2, 2, &[0, 0, 1, 1]), &frame(2, 2, &[0, 1, 1, 1])),
        Ok(999_019)
    );
}

#[test]
fn histogram_likeness_is_the_overlap_of_the_histograms() {
    assert_eq!(
        histogram_similarity(&frame(2, 2, &[0, 0, 1, 1]), &frame(2, 2, &[0, 1, 1, 1])),
        Ok(965_925)
    );
    assert_eq!(
        histogram_similarity(&frame(2, 2, &[0, 64, 128, 255]), &frame(2, 2, &[255, 128, 64, 0])),
        Ok(SCALE)
    );
    assert_eq!(
        histogram_similarity(&frame(2, 2, &[0, 0, 0, 0]), &frame(2, 2, &[255, 255, 255, 255])),
        Ok(0)
    );
    assert_eq!(
        histogram_similarity(
            &frame(3, 2, &[10, 20, 30, 40, 50, 60]),
            &frame(3, 2, &[12, 18, 33, 41, 48, 70])
        ),
        Ok(0)
    );
}

#[test]
fn structural_similarity_follows_the_sums() {
    assert_eq!(ssim_similarity(&frame(2, 1, &[10, 20]), &frame(2, 1, &[20, 10])), Ok(539_266));
    assert_eq!(
        ssim_similarity(&frame(2, 2, &[0, 0, 1, 1]), &frame(2, 2, &[0, 1, 1, 1])),
        Ok(994_150)
    );
    assert_eq!(
        ssim_similarity(&frame(2, 2, &[0, 64, 128, 255]), &frame(2, 2, &[255, 128, 64, 0])),
        Ok(31_099)
    );
    assert_eq!(
        ssim_similarity(
            &frame(3, 2, &[10, 20, 30, 40, 50, 60]),
            &frame(3, 2, &[12, 18, 33, 41, 48, 70])
        ),
        Ok(987_928)
    );
    assert_eq!(
        ssim_similarity(&frame(2, 2, &[0, 0, 0, 0]), &frame(2, 2, &[255, 255, 255, 255])),
        Ok(500_049)
    );
    assert_eq!(
        ssim_similarity(&frame(2, 2, &[0, 255, 0, 255]), &frame(2, 2, &[255, 0, 255, 0])),
        Ok(1_796)
    );
}

#[test]
fn structural_similarity_is_close_to_the_real_valued_index() {
    let a: Vec<u8> = (0..64u32).map(|i| ((i * 37 + 11) % 256) as u8).collect();
    let b: Vec<u8> = (0..64u32).map(|i| ((i * 41 + 5) % 256) as u8).collect();
    let n = 64.0f64;
    let m1 = a.iter().map(|&x| x as f64).sum::<f64>() / n;
    let m2 = b.iter().map(|&x| x as f64).sum::<f64>() / n;
    let mut v1 = 0.0;
    let mut v2 = 0.0;
    let mut cov = 0.0;
    for i in 0..64 {
        let d1 = a[i] as f64 - m1;
        let d2 = b[i] as f64 - m2;
        v1 += d1 * d1;
        v2 += d2 * d2;
        cov += d1 * d2;
    }
    v1 /= n;
    v2 /= n;
    cov /= n;
    let c1 = (0.01f64 * 255.0) * (0.01 * 255.0);
    let c2 = (0.03f64 * 255.0) * (0.03 * 255.0);
    let index = ((2.0 * m1 * m2 + c1) * (2.0 * cov + c2))
        / ((m1 * m1 + m2 * m2 + c1) * (v1 + v2 + c2));
    let expected = (index + 1.0) / 2.0;
    let score = ssim_similarity(&frame(8, 8, &a), &frame(8, 8, &b)).unwrap();
    assert!((score as f64 / 1_000_000.0 - expected).abs() < 0.000_003);
}

#[test]
fn every_score_is_at_most_one() {
    let a: Vec<u8> = (0..100u32).map(|i| ((i * 97) % 256) as u8).collect();
    let b: Vec<u8> = (0..100u32).map(|i| ((i * i + 3) % 256) as u8).collect();
    for algorithm in ALGORITHMS {
        let score = calculate_similarity(&frame(10, 10, &a), &frame(10, 10, &b), algorithm).unwrap();
        assert!(score <= SCALE);
    }
}

#[test]
fn a_gray_image_keeps_its_intensities() {
    let buffer = image::GrayImage::from_raw(3, 2, vec![1, 2, 3, 4, 5, 6]).unwrap();
    let decoded = image::DynamicImage::ImageLuma8(buffer);
    let f = gray_frame_of(&decoded).unwrap();
    assert_eq!(f.width(), 3);
    assert_eq!(f.height(), 2);
    assert_eq!(f.pixels(), &vec![1, 2, 3, 4, 5, 6]);
}

#[test]
fn a_colour_image_becomes_one_intensity_for_each_pixel() {
    let buffer =
        image::RgbImage::from_raw(2, 1, vec![255, 255, 255, 0, 0, 0]).unwrap();
    let decoded = image::DynamicImage::ImageRgb8(buffer);
    let f = gray_frame_of(&decoded).unwrap();
    assert_eq!(f.width(), 2);
    assert_eq!(f.height(), 1);
    assert_eq!(f.pixels(), &vec![255, 0]);
}

#[test]
fn an_oversized_buffer_is_cut_to_the_image() {
    let buffer = image::GrayImage::from_raw(2, 1, vec![7, 8, 9, 10]).unwrap();
    let decoded = image::DynamicImage::ImageLuma8(buffer);
    let f = gray_frame_of(&decoded).unwrap();
    assert_eq!(f.pixels(), &vec![7, 8]);
}

#[test]
fn decoded_images_compare_like_their_frames() {
    let first = image::DynamicImage::ImageLuma8(
        image::GrayImage::from_raw(2, 1, vec![10, 20]).unwrap(),
    );
    let second = image::DynamicImage::ImageLuma8(
        image::GrayImage::from_raw(2, 1, vec![20, 10]).unwrap(),
    );
    let a = gray_frame_of(&first).unwrap();
    let b = gray_frame_of(&second).unwrap();
    assert_eq!(calculate_similarity(&a, &b, SimilarityAlgorithm::FrameDiff), Ok(960_784));
}

#[test]
fn integer_roots_round_down() {
    assert_eq!(isqrt(0), 0);
    assert_eq!(isqrt(1), 1);
    assert_eq!(isqrt(3), 1);
    assert_eq!(isqrt(4), 2);
    assert_eq!(isqrt(99), 9);
    assert_eq!(isqrt(2_000_000_000_000), 1_414_213);
    assert_eq!(isqrt(u128::MAX), u64::MAX as u128);
}
