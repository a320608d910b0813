use cdchunking::{
    AEChunker, BFBCChunker, Chunker, ChunkerImpl, FixedSizeChunker, GearChunker, MIIChunker,
    MaybeOptimizedRAMChunker, NormalizedChunkingGearChunker, PCIChunker, PCIChunkerNonConst,
    RAMChunker, SliceReader, TTTDChunker, ZPAQ,
};
use rand::rngs::StdRng;
use rand::{RngCore, SeedableRng};

const TEXT: &[u8] = b"The quick brown fox jumps over the lazy dog, and then the dog chases the fox across the frozen lake.";

fn in_memory<I: ChunkerImpl>(strategy: I, data: &[u8]) -> Vec<(usize, usize)> {
    let mut result = Vec::new();
    let mut start = 0;
    let mut slices = Chunker::new(strategy).slices(data);
    while let Some(slice) = slices.next() {
        assert_eq!(slice, &data[start..start + slice.len()]);
        result.push((start, slice.len()));
        start += slice.len();
    }
    assert_eq!(start, data.len());
    result
}

fn in_pieces<I: ChunkerImpl>(strategy: I, data: &[u8], piece: usize) -> Vec<(usize, usize)> {
    let mut result = Vec::new();
    let mut chunks = Chunker::new(strategy).chunks(SliceReader::in_pieces(data, piece));
    while let Some(info) = chunks.next() {
        let info = info.unwrap();
        assert_eq!(info.end(), info.start() + info.length());
        result.push((info.start(), info.length()));
    }
    result
}

/// The chunks in memory are the expected ones, and those of a stream are the
/// same whatever the pieces are in which the input comes.
fn check<I: ChunkerImpl>(make: impl Fn() -> I, data: &[u8], expected: &[(usize, usize)]) {
    assert_eq!(in_memory(make(), data), expected);
    for piece in 1..=data.len() + 1 {
        assert_eq!(in_pieces(make(), data, piece), expected, "pieces of {}", piece);
    }
}

#[test]
fn fixed_size_of_4_on_10_bytes() {
    let data: Vec<u8> = (0..10).collect();
    check(|| FixedSizeChunker::new(4), &data, &[(0, 4), (4, 4), (8, 2)]);
    check(|| FixedSizeChunker::new(4), b"0123456789", &[(0, 4), (4, 4), (8, 2)]);
}

#[test]
fn fixed_size_chunk_count_is_length_over_size_rounded_up() {
    let chunks = in_memory(FixedSizeChunker::new(7), TEXT);
    assert_eq!(chunks.len(), 15);
    for chunk in &chunks[..14] {
        assert_eq!(chunk.1, 7);
    }
    assert_eq!(chunks[14], (98, 2));
    // A size that divides the length leaves no short chunk.
    let chunks = in_memory(FixedSizeChunker::new(10), TEXT);
    assert_eq!(chunks.len(), 10);
    assert_eq!(chunks[9], (90, 10));
}

#[test]
fn fixed_size_of_zero_never_cuts() {
    let data: Vec<u8> = (0..10).collect();
    check(|| FixedSizeChunker::new(0), &data, &[(0, 10)]);
}

#[test]
fn zpaq_update_reports_the_cut() {
    let mut zpaq = ZPAQ::new(3);
    let cuts: Vec<bool> = b"defghijk".iter().map(|b| zpaq.update(*b)).collect();
    assert_eq!(cuts, vec![false, true, false, false, false, false, false, false]);
}

#[test]
fn zpaq_chunks() {
    check(
        || ZPAQ::new(2),
        TEXT,
        &[
            (0, 4), (4, 1), (5, 6), (11, 3), (14, 1), (15, 1), (16, 2), (18, 2), (20, 7),
            (27, 3), (30, 1), (31, 8), (39, 1), (40, 8), (48, 1), (49, 7), (56, 4), (60, 8),
            (68, 1), (69, 6), (75, 2), (77, 1), (78, 2), (80, 1), (81, 12), (93, 1), (94, 1),
            (95, 4), (99, 1),
        ],
    );
}

#[test]
fn zpaq_with_the_widest_and_the_narrowest_threshold() {
    // With 0 bits every hash is below the threshold.
    check(|| ZPAQ::new(0), &TEXT[..5], &[(0, 1), (1, 1), (2, 1), (3, 1), (4, 1)]);
    // With 32 bits only the hash 0 is.
    check(|| ZPAQ::new(32), &TEXT[..20], &[(0, 20)]);
}

#[test]
fn gear_chunks() {
    check(
        || GearChunker::new(0xe000_0000),
        TEXT,
        &[
            (0, 3), (3, 9), (12, 4), (16, 8), (24, 7), (31, 6), (37, 29), (66, 6), (72, 24),
            (96, 4),
        ],
    );
    check(|| GearChunker::new(0xf000_0000), TEXT, &[(0, 17), (17, 34), (51, 23), (74, 26)]);
}

#[test]
fn gear_finds_the_first_boundary() {
    let mut gear = GearChunker::new(0xe000_0000);
    assert_eq!(gear.find_boundary(&TEXT[..2]), None);
    assert_eq!(gear.find_boundary(&TEXT[2..]), Some(0));
    gear.reset();
    assert_eq!(gear.find_boundary(&TEXT[3..]), Some(8));
}

#[test]
fn normalized_gear_chunks() {
    check(
        || NormalizedChunkingGearChunker::new(0xf000_0000, 0xc000_0000, 8),
        TEXT,
        &[
            (0, 16), (16, 9), (25, 11), (36, 13), (49, 10), (59, 5), (64, 5), (69, 10), (79, 7),
            (86, 5), (91, 3), (94, 6),
        ],
    );
    check(
        || NormalizedChunkingGearChunker::new(0xf800_0000, 0x8000_0000, 12),
        TEXT,
        &[(0, 13), (13, 14), (27, 13), (40, 16), (56, 10), (66, 9), (75, 14), (89, 11)],
    );
}

#[test]
fn ae_chunks_for_a_window() {
    check(
        || AEChunker::with_window_size(3),
        TEXT,
        &[
            (0, 9), (9, 8), (17, 5), (22, 9), (31, 4), (35, 6), (41, 4), (45, 8), (53, 5),
            (58, 5), (63, 6), (69, 4), (73, 6), (79, 9), (88, 7), (95, 4), (99, 1),
        ],
    );
    check(
        || AEChunker::with_window_size(8),
        TEXT,
        &[(0, 27), (27, 9), (36, 10), (46, 12), (58, 26), (84, 16)],
    );
}

#[test]
fn ae_window_is_the_target_over_e_less_one() {
    // 5 / 1.718... is 2.9, 9 / 1.718... is 5.2, 14 / 1.718... is 8.1
    for (target, window) in [(5, 3), (9, 5), (14, 8), (3, 2), (2, 1), (1, 1), (0, 0)] {
        assert_eq!(
            in_memory(AEChunker::new(target), TEXT),
            in_memory(AEChunker::with_window_size(window), TEXT),
            "target {}",
            target
        );
    }
    check(
        || AEChunker::new(9),
        TEXT,
        &[
            (0, 11), (11, 13), (24, 9), (33, 10), (43, 12), (55, 10), (65, 10), (75, 6), (81, 9),
            (90, 7), (97, 3),
        ],
    );
}

#[test]
fn ae_with_no_window_cuts_only_at_a_first_zero() {
    check(|| AEChunker::with_window_size(0), &[0, 1, 2, 3, 0, 0], &[(0, 1), (1, 5)]);
    check(|| AEChunker::with_window_size(0), &[5, 1, 2, 3, 0, 0], &[(0, 6)]);
}

#[test]
fn ram_chunks() {
    check(
        || RAMChunker::new(4),
        TEXT,
        &[(0, 6), (6, 6), (12, 7), (19, 9), (28, 10), (38, 54), (92, 8)],
    );
    check(|| RAMChunker::new(8), TEXT, &[(0, 14), (14, 24), (38, 54), (92, 8)]);
    check(|| RAMChunker::new(0), &TEXT[..20], &[(0, 2), (2, 3), (5, 9), (14, 4), (18, 2)]);
}

#[test]
fn ram_in_two_phases_chunks() {
    check(
        || MaybeOptimizedRAMChunker::new(4),
        TEXT,
        &[(0, 6), (6, 6), (12, 7), (19, 9), (28, 10), (38, 54), (92, 8)],
    );
    check(|| MaybeOptimizedRAMChunker::new(8), TEXT, &[(0, 14), (14, 24), (38, 54), (92, 8)]);
    check(
        || MaybeOptimizedRAMChunker::new(0),
        &TEXT[..20],
        &[(0, 2), (2, 3), (5, 9), (14, 4), (18, 2)],
    );
}

#[test]
fn ram_cuts_at_the_first_byte_beyond_the_window_that_is_no_smaller() {
    // The window holds the positions 0, 1 and 2; the byte at position 3 is
    // the first that can end the chunk.
    assert_eq!(RAMChunker::new(2).find_boundary(&[1, 1, 1, 1]), Some(3));
    assert_eq!(MaybeOptimizedRAMChunker::new(2).find_boundary(&[1, 1, 1, 1]), Some(3));
    assert_eq!(RAMChunker::new(2).find_boundary(&[1, 1, 9, 8, 8, 9]), Some(5));
    assert_eq!(MaybeOptimizedRAMChunker::new(2).find_boundary(&[1, 1, 9, 8, 8, 9]), Some(5));
    assert_eq!(RAMChunker::new(2).find_boundary(&[1, 1, 1]), None);
    assert_eq!(MaybeOptimizedRAMChunker::new(2).find_boundary(&[1, 1, 1]), None);
}

#[test]
fn ram_in_two_phases_cuts_as_the_plain_version() {
    for window in 0..40 {
        assert_eq!(
            in_memory(RAMChunker::new(window), TEXT),
            in_memory(MaybeOptimizedRAMChunker::new(window), TEXT),
            "window {}",
            window
        );
        for piece in [1, 2, 3, 7, 50] {
            assert_eq!(
                in_pieces(RAMChunker::new(window), TEXT, piece),
                in_pieces(MaybeOptimizedRAMChunker::new(window), TEXT, piece),
                "window {} in pieces of {}",
                window,
                piece
            );
        }
    }
    // With the largest window the chunk never ends.
    assert_eq!(in_memory(MaybeOptimizedRAMChunker::new(usize::MAX), TEXT), vec![(0, 100)]);
    assert_eq!(in_memory(RAMChunker::new(usize::MAX), TEXT), vec![(0, 100)]);
}

#[test]
fn mii_cuts_after_a_run_of_three_rises() {
    let data = [1, 2, 3, 4, 0, 5, 6, 7, 8, 9];
    let mut mii = MIIChunker::new(3);
    assert_eq!(mii.find_boundary(&data), Some(3));
    check(|| MIIChunker::new(3), &data, &[(0, 4), (4, 4), (8, 2)]);
}

#[test]
fn mii_chunks() {
    check(|| MIIChunker::new(3), TEXT, &[(0, 19), (19, 57), (76, 4), (80, 20)]);
    check(
        || MIIChunker::new(1),
        &TEXT[..20],
        &[(0, 2), (2, 3), (5, 4), (9, 2), (11, 3), (14, 3), (17, 2), (19, 1)],
    );
    // A run has a rise, so that a threshold of 0 is never met.
    check(|| MIIChunker::new(0), &TEXT[..20], &[(0, 20)]);
}

#[test]
fn pci_chunks() {
    let expected = [(0, 14), (14, 11), (25, 57), (82, 12), (94, 6)];
    check(|| PCIChunker::<8>::new(33), TEXT, &expected);
    check(|| PCIChunkerNonConst::new(8, 33), TEXT, &expected);
    let expected = [(0, 9), (9, 5), (14, 11), (25, 5), (30, 52), (82, 10), (92, 8)];
    check(|| PCIChunker::<4>::new(18), TEXT, &expected);
    check(|| PCIChunkerNonConst::new(4, 18), TEXT, &expected);
    let expected = [
        (0, 14), (14, 5), (19, 4), (23, 6), (29, 14), (43, 18), (61, 7), (68, 8), (76, 5),
        (81, 10), (91, 3), (94, 6),
    ];
    check(|| PCIChunker::<3>::new(14), TEXT, &expected);
    check(|| PCIChunkerNonConst::new(3, 14), TEXT, &expected);
}

#[test]
fn pci_with_a_window_of_one_byte_counts_the_bits_of_that_byte() {
    let expected = [
        (0, 6), (6, 3), (9, 4), (13, 1), (14, 1), (15, 3), (18, 4), (22, 1), (23, 2), (25, 2),
        (27, 1), (28, 10), (38, 1), (39, 3), (42, 1), (43, 4), (47, 6), (53, 7), (60, 1),
        (61, 5), (66, 2), (68, 7), (75, 6), (81, 1), (82, 1), (83, 8), (91, 1), (92, 2),
        (94, 4), (98, 2),
    ];
    check(|| PCIChunker::<1>::new(5), TEXT, &expected);
    check(|| PCIChunkerNonConst::new(1, 5), TEXT, &expected);
}

#[test]
fn pci_without_a_window() {
    // No window holds no 1-bit: a threshold of 0 is met at every byte, and no other ever.
    let singles: Vec<(usize, usize)> = (0..100).map(|i| (i, 1)).collect();
    check(|| PCIChunker::<0>::new(0), TEXT, &singles);
    check(|| PCIChunkerNonConst::new(0, 0), TEXT, &singles);
    check(|| PCIChunker::<0>::new(1), TEXT, &[(0, 100)]);
    check(|| PCIChunkerNonConst::new(0, 1), TEXT, &[(0, 100)]);
}

#[test]
fn pci_on_random_input() {
    let mut data = vec![0u8; 1 << 20];
    StdRng::seed_from_u64(0x5eed).fill_bytes(&mut data);
    let chunks = in_memory(PCIChunker::<8>::new(33), &data);
    assert!(chunks.len() > 1);
    for chunk in &chunks[..chunks.len() - 1] {
        assert!(chunk.1 >= 8);
    }
    assert_eq!(chunks.iter().map(|c| c.1).sum::<usize>(), data.len());
    // The same seed gives the same input and the same chunks, with either window.
    let mut again = vec![0u8; 1 << 20];
    StdRng::seed_from_u64(0x5eed).fill_bytes(&mut again);
    assert_eq!(in_memory(PCIChunkerNonConst::new(8, 33), &again), chunks);
    assert_eq!(in_pieces(PCIChunker::<8>::new(33), &again, 4096), chunks);
}

#[test]
fn bfbc_cuts_at_the_pair() {
    let data = [0x00, 0x0a, 0x0b, 0x0a, 0x0b];
    let mut bfbc = BFBCChunker::new(vec![(0x0a, 0x0b)], 2);
    assert_eq!(bfbc.find_boundary(&data), Some(2));
    // From a fresh state the rest holds the pair at its minimum size.
    bfbc.reset();
    assert_eq!(bfbc.find_boundary(&data[3..]), Some(1));
    check(|| BFBCChunker::new(vec![(0x0a, 0x0b)], 2), &data, &[(0, 3), (3, 2)]);
}

#[test]
fn bfbc_chunks() {
    check(
        || BFBCChunker::new(vec![(b'h', b'e'), (b'o', b'x')], 4),
        TEXT,
        &[(0, 19), (19, 15), (34, 18), (52, 5), (57, 15), (72, 4), (76, 11), (87, 13)],
    );
    // Without pairs there is no boundary.
    check(|| BFBCChunker::new(Vec::new(), 2), TEXT, &[(0, 100)]);
}

#[test]
fn tttd_chunks_in_memory() {
    assert_eq!(
        in_memory(TTTDChunker::new(16, 4, 4, 16), TEXT),
        vec![
            (0, 14), (14, 11), (25, 10), (35, 11), (46, 12), (58, 7), (65, 8), (73, 5), (78, 10),
            (88, 4), (92, 8),
        ]
    );
    assert_eq!(
        in_memory(TTTDChunker::new(32, 8, 6, 20), TEXT),
        vec![(0, 14), (14, 17), (31, 15), (46, 19), (65, 13), (78, 17), (95, 5)]
    );
    assert_eq!(
        in_memory(TTTDChunker::new(1000, 2, 4, 10), TEXT),
        vec![
            (0, 8), (8, 9), (17, 9), (26, 9), (35, 9), (44, 7), (51, 8), (59, 9), (68, 9),
            (77, 9), (86, 9), (95, 5),
        ]
    );
}

#[test]
fn tttd_with_one_piece_is_as_in_memory() {
    for (divisor, backup, min, max) in [(16, 4, 4, 16), (32, 8, 6, 20), (7, 3, 5, 12)] {
        assert_eq!(
            in_pieces(TTTDChunker::new(divisor, backup, min, max), TEXT, 4096),
            in_memory(TTTDChunker::new(divisor, backup, min, max), TEXT)
        );
    }
}

#[test]
fn tttd_gives_a_backup_only_within_the_view() {
    // In pieces of 8 bytes the backup of the fourth chunk lies in a piece
    // that was handed out before the chunk was full.
    assert_eq!(
        in_pieces(TTTDChunker::new(16, 4, 4, 16), TEXT, 8),
        vec![
            (0, 14), (14, 11), (25, 10), (35, 16), (51, 7), (58, 7), (65, 8), (73, 5), (78, 10),
            (88, 4), (92, 8),
        ]
    );
    assert_eq!(
        in_pieces(TTTDChunker::new(32, 8, 6, 20), TEXT, 5),
        vec![(0, 20), (20, 20), (40, 19), (59, 19), (78, 20), (98, 2)]
    );
}

#[test]
fn tttd_with_a_minimum_beyond_the_maximum() {
    let tens: Vec<(usize, usize)> = (0..10).map(|i| (10 * i, 10)).collect();
    assert_eq!(in_memory(TTTDChunker::new(16, 4, 10, 6), TEXT), tens);
}

#[test]
fn reset_restores_the_state_of_a_new_strategy() {
    let mut used = GearChunker::new(0xf000_0000);
    assert_eq!(used.find_boundary(&TEXT[40..]), Some(25));
    used.reset();
    assert_eq!(used.find_boundary(TEXT), Some(16));
    let mut fresh = GearChunker::new(0xf000_0000);
    assert_eq!(fresh.find_boundary(TEXT), Some(16));
    // Without a reset the scan goes on from the state that the boundary left.
    assert_eq!(fresh.find_boundary(TEXT), Some(10));

    let mut used = PCIChunker::<8>::new(33);
    assert_eq!(used.find_boundary(&TEXT[30..]), Some(51));
    used.reset();
    assert_eq!(used.find_boundary(TEXT), Some(13));

    let mut used = ZPAQ::new(3);
    assert_eq!(used.find_boundary(b"fghijklmnopqrstuvwxyz"), Some(12));
    used.reset();
    assert_eq!(used.find_boundary(b"defghijklmnopqrstuvwxyz"), Some(1));
}
