use p2p_all_to_all::padding::compute_padded_offsets;

#[test]
fn compact_offsets_respect_expert_padding() {
    assert_eq!(compute_padded_offsets(&[3, 0, 5], 4, 0), vec![0, 4, 4]);
    assert_eq!(compute_padded_offsets(&[1, 4, 5], 4, 0), vec![0, 4, 8]);
}

#[test]
fn batched_offsets_use_fixed_expert_stride() {
    assert_eq!(compute_padded_offsets(&[3, 0, 5], 4, 8), vec![0, 8, 16]);
    assert_eq!(compute_padded_offsets(&[1, 4, 5], 1, 128), vec![0, 128, 256]);
}
