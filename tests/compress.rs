use hypercube::compress::{compress_frame, has_even_rows, rle_row, RleChunk, COMPRESSION_DIFF};
use hypercube::geometry::Edge;
use hypercube::raster::{rasterize, ScreenPoint, FIXED_ONE};

fn chunk(n: usize, a: u8, b: u8) -> RleChunk {
    RleChunk { n, d: (a, b) }
}

#[test]
fn runs_follow_the_first_sample() {
    let top = vec![0u8, 10, 20, 40, 40];
    let r = rle_row(&top, None);
    assert_eq!(r, vec![chunk(2, 5, 0), chunk(1, 20, 0), chunk(2, 40, 0)]);
}

#[test]
fn baseline_does_not_drift_with_average() {
    let top = vec![0u8, 16, 16, 16];
    assert_eq!(rle_row(&top, None), vec![chunk(4, 12, 0)]);
    let top = vec![0u8, 16, 32];
    assert_eq!(rle_row(&top, None), vec![chunk(2, 8, 0), chunk(1, 32, 0)]);
}

#[test]
fn both_channels_decide() {
    let top = vec![100u8, 100, 100];
    let bottom = vec![0u8, 17, 17];
    assert_eq!(rle_row(&top, Some(&bottom)), vec![chunk(1, 100, 0), chunk(2, 100, 17)]);
}

#[test]
fn empty_row_has_no_runs() {
    let top: Vec<u8> = Vec::new();
    assert!(rle_row(&top, None).is_empty());
}

#[test]
fn blank_row_pair_is_one_run() {
    let top = vec![0u8; 1080];
    let bottom = vec![0u8; 1080];
    assert_eq!(rle_row(&top, Some(&bottom)), vec![chunk(1080, 0, 0)]);
}

#[test]
fn odd_height_pairs_last_row_with_black() {
    let image = vec![vec![50u8, 50], vec![60u8, 60], vec![70u8, 70]];
    let r = compress_frame(&image);
    assert_eq!(r.len(), 2);
    assert_eq!(r[0], vec![chunk(2, 50, 60)]);
    assert_eq!(r[1], vec![chunk(2, 70, 0)]);
}

#[test]
fn diagonal_frame_compresses_within_threshold() {
    let size = 1080usize;
    let points = vec![
        ScreenPoint { x: 0, y: 0, depth: FIXED_ONE },
        ScreenPoint { x: 1079, y: 1079, depth: FIXED_ONE },
    ];
    let image = rasterize(&vec![Edge::new(0, 1)], &points, size, size);
    let r = compress_frame(&image);
    assert_eq!(r.len(), size / 2);
    let mut split_rows = 0;
    for (k, row) in r.iter().enumerate() {
        assert_eq!(row.iter().map(|c| c.n).sum::<usize>(), size);
        let mut start = 0;
        for c in row {
            assert!(c.n >= 1);
            let first = (image[2 * k][start], image[2 * k + 1][start]);
            assert!(c.d.0.abs_diff(first.0) <= COMPRESSION_DIFF);
            assert!(c.d.1.abs_diff(first.1) <= COMPRESSION_DIFF);
            start += c.n;
        }
        let blank = image[2 * k].iter().chain(image[2 * k + 1].iter()).all(|&v| v == 0);
        if blank {
            assert_eq!(row, &vec![chunk(size, 0, 0)]);
        } else {
            assert!(row.len() > 1);
            split_rows += 1;
        }
    }
    assert!(split_rows > 0);
}

#[test]
fn even_rows_are_recognised() {
    assert!(has_even_rows(&vec![]));
    assert!(has_even_rows(&vec![vec![1u8, 2], vec![3, 4]]));
    assert!(!has_even_rows(&vec![vec![1u8, 2], vec![3]]));
}
