use image::{GrayImage, Luma};
use isomfolio_core::grouping_score::{
    labels_from_groups, recomposition_pairs, LabeledHash, RECOMPOSITION_HAMMING,
};
use isomfolio_core::phash::{
    dhash, dhash_from_luma, group_stacks, hamming, HashedFile, PixelImage, PixelKind,
};

fn grey(img: GrayImage) -> PixelImage {
    PixelImage { kind: PixelKind::Luma8, width: img.width(), height: img.height(), bytes: img.into_raw(), wide: Vec::new() }
}

fn gradient(offset: u8) -> PixelImage {
    let mut img = GrayImage::new(16, 16);
    for y in 0..16u32 {
        for x in 0..16u32 {
            let v = ((x * 16) as u8).wrapping_add(offset);
            img.put_pixel(x, y, Luma([v]));
        }
    }
    grey(img)
}

#[test]
fn is_deterministic() {
    assert_eq!(dhash(&gradient(0)), dhash(&gradient(0)));
}

#[test]
fn near_duplicate_is_close() {
    let d = hamming(dhash(&gradient(0)), dhash(&gradient(8)));
    assert!(d <= 4, "near-dup distance {d} too large");
}

#[test]
fn different_image_is_far() {
    let mut rev = GrayImage::new(16, 16);
    for y in 0..16u32 {
        for x in 0..16u32 {
            rev.put_pixel(x, y, Luma([((15 - x) * 16) as u8]));
        }
    }
    let d = hamming(dhash(&gradient(0)), dhash(&grey(rev)));
    assert!(d >= 4, "distinct-image distance {d} too small");
}

#[test]
fn dhash_sets_a_bit_per_brighter_left_pixel() {
    // Row y, column x at index 9y + x. Only pixel (2, 1) is brighter than its
    // right neighbour, so only bit 8 * 1 + 2 = 10 is set.
    let mut px = vec![0u8; 72];
    px[9 + 2] = 200;
    assert_eq!(dhash_from_luma(&px), 1u64 << 10);
    // A strictly decreasing row sets all eight bits of that row.
    let mut dec = vec![0u8; 72];
    for x in 0..9 {
        dec[9 * 3 + x] = (100 - x) as u8;
    }
    assert_eq!(dhash_from_luma(&dec), 0xffu64 << 24);
}

#[test]
fn counts_differing_bits() {
    assert_eq!(hamming(0, 0), 0);
    assert_eq!(hamming(0b1011, 0b0010), 2);
    assert_eq!(hamming(u64::MAX, 0), 64);
}

fn f(hash: u64, time: i64) -> HashedFile {
    HashedFile { hash, time }
}

#[test]
fn groups_near_dupes_shot_close() {
    let items = [f(0b0000, 0), f(0b0001, 1), f(0b0011, 2)];
    let groups = group_stacks(&items, 2, 10);
    assert_eq!(groups, vec![vec![0, 1, 2]]);
}

#[test]
fn splits_on_scene_change_despite_close_time() {
    let items = [f(0, 0), f(u64::MAX, 1), f(u64::MAX, 2)];
    let groups = group_stacks(&items, 4, 10);
    assert_eq!(groups, vec![vec![1, 2]]);
}

#[test]
fn splits_on_time_gap_despite_identical_pixels() {
    let items = [f(0, 0), f(0, 1), f(0, 100)];
    let groups = group_stacks(&items, 0, 10);
    assert_eq!(groups, vec![vec![0, 1]]);
}

#[test]
fn joins_near_dupes_across_a_three_second_gap() {
    let items = [f(0, 0), f(0b1, 6)];
    let groups = group_stacks(&items, 2, 10);
    assert_eq!(groups, vec![vec![0, 1]]);
}

#[test]
fn excludes_singletons() {
    let items = [f(0, 0), f(u64::MAX, 50)];
    assert!(group_stacks(&items, 2, 10).is_empty());
}

#[test]
fn representative_anchored_to_first_frame_prevents_drift() {
    let items = [f(0b0000_0000, 0), f(0b0000_1111, 1), f(0b1111_1111, 2)];
    let groups = group_stacks(&items, 4, 10);
    assert_eq!(groups, vec![vec![0, 1]]);
}

#[test]
fn groups_follow_capture_time_not_input_order() {
    // Out-of-order input is walked by time: indexes 2, 0, 1 form one stack.
    let items = [f(0, 5), f(1, 6), f(0, 4)];
    let groups = group_stacks(&items, 2, 10);
    assert_eq!(groups, vec![vec![2, 0, 1]]);
}

#[test]
fn ungrouped_items_become_distinct_singletons() {
    let labels = labels_from_groups(&[vec![0, 1]], 4);
    assert_eq!(labels[0], labels[1]);
    assert_ne!(labels[0], labels[2]);
    assert_ne!(labels[2], labels[3]);
}

#[test]
fn two_groups_get_separate_ids() {
    let labels = labels_from_groups(&[vec![0, 1], vec![2, 3]], 4);
    assert_eq!(labels[0], labels[1]);
    assert_eq!(labels[2], labels[3]);
    assert_ne!(labels[0], labels[2]);
}

#[test]
fn labels_number_groups_then_singletons() {
    assert_eq!(labels_from_groups(&[vec![2, 0]], 4), vec![0, 1, 0, 2]);
}

fn item(label: usize, hash: u64) -> LabeledHash {
    LabeledHash { label, hash }
}

#[test]
fn flags_far_apart_same_group_pairs_only() {
    let items = vec![
        item(0, 0b0),
        item(0, (1u64 << (RECOMPOSITION_HAMMING + 1)) - 1),
        item(1, 0b0),
    ];
    let pairs = recomposition_pairs(&items);
    assert_eq!(pairs, vec![(0, 1)]);
}

#[test]
fn near_duplicates_are_not_recompositions() {
    let items = vec![item(0, 0b0), item(0, 0b1)];
    assert!(recomposition_pairs(&items).is_empty());
}

#[test]
fn colour_layouts_hash_like_their_grey_content() {
    let g = gradient(0);
    let rgb: Vec<u8> = g.bytes.iter().flat_map(|&v| [v, v, v]).collect();
    let img = PixelImage { kind: PixelKind::Rgb8, width: 16, height: 16, bytes: rgb, wide: Vec::new() };
    assert_eq!(dhash(&img), dhash(&g));
    let empty = PixelImage { kind: PixelKind::Luma8, width: 0, height: 0, bytes: Vec::new(), wide: Vec::new() };
    assert_eq!(dhash(&empty), 0);
}

#[test]
fn stacks_ignore_input_order() {
    let items = vec![
        HashedFile { hash: 0, time: 10 },
        HashedFile { hash: 0, time: 12 },
        HashedFile { hash: u64::MAX, time: 11 },
        HashedFile { hash: 0, time: 100 },
        HashedFile { hash: 1, time: 101 },
    ];
    let p: Vec<usize> = vec![3, 0, 4, 2, 1];
    let items2: Vec<HashedFile> = p.iter().map(|&k| items[k]).collect();
    let a = group_stacks(&items, 2, 5);
    let b: Vec<Vec<usize>> =
        group_stacks(&items2, 2, 5).into_iter().map(|g| g.into_iter().map(|k| p[k]).collect()).collect();
    assert_eq!(a, b);
    assert_eq!(a, vec![vec![3, 4]]);
}

#[test]
fn far_apart_times_are_grouped_without_overflow() {
    let items = vec![
        HashedFile { hash: 7, time: -(1i64 << 62) - 1 },
        HashedFile { hash: 7, time: 0 },
        HashedFile { hash: 7, time: (1i64 << 62) + 1 },
    ];
    assert!(group_stacks(&items, 0, 10).is_empty());
    assert_eq!(group_stacks(&items, 0, i64::MAX), vec![vec![0, 1, 2]]);
}

#[test]
fn sixteen_bit_images_hash_their_own_samples() {
    let mut wide: Vec<u16> = Vec::new();
    for y in 0..16u16 {
        for x in 0..16u16 {
            wide.push(((x * 4000) ^ (y * 997)) as u16);
        }
    }
    let img = PixelImage { kind: PixelKind::Luma16, width: 16, height: 16, bytes: Vec::new(), wide: wide.clone() };
    let buf: image::ImageBuffer<Luma<u16>, Vec<u16>> = image::ImageBuffer::from_raw(16, 16, wide).unwrap();
    let grid = image::DynamicImage::ImageLuma16(buf)
        .resize_exact(9, 8, image::imageops::FilterType::Triangle)
        .to_luma8()
        .into_raw();
    assert_eq!(dhash(&img), dhash_from_luma(&grid));
    let g8 = gradient(0);
    let g16: Vec<u16> = g8.bytes.iter().map(|&v| v as u16 * 257).collect();
    let img16 = PixelImage { kind: PixelKind::Luma16, width: 16, height: 16, bytes: Vec::new(), wide: g16 };
    assert_eq!(dhash(&img16), dhash(&g8));
}
