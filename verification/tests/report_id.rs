use offences::{Kind, Pallet};
use parity_scale_codec::Encode;
use sp_runtime::traits::BlakeTwo256;

const KIND: Kind = *b"babe:equivocatio";

#[test]
fn report_id_of_a_short_slot_and_an_account() {
    let id = Pallet::report_id(&KIND, &vec![7, 0, 0, 0, 0, 0, 0, 0], &vec![1u8; 32]);
    assert_eq!(
        id,
        [
            0x4f, 0x55, 0xb7, 0xa8, 0x76, 0x5d, 0x9a, 0x93, 0xc3, 0x41, 0x5e, 0x33, 0xb4, 0x18,
            0xb2, 0x06, 0x85, 0x7f, 0x5a, 0x6a, 0x36, 0xf6, 0xc5, 0x47, 0xdd, 0xca, 0xc0, 0x37,
            0xf5, 0x63, 0x97, 0xb6
        ]
    );
}

#[test]
fn report_id_of_empty_slot_and_offender() {
    let id = Pallet::report_id(&[0u8; 16], &vec![], &vec![]);
    assert_eq!(
        id,
        [
            0x29, 0xfd, 0x22, 0xb3, 0xbb, 0xfb, 0x88, 0x3c, 0x65, 0xb0, 0xd1, 0x17, 0xae, 0xf2,
            0xac, 0xf0, 0x05, 0xa3, 0x22, 0x62, 0x3e, 0x74, 0xe1, 0x76, 0x2b, 0x58, 0x4b, 0x89,
            0xd1, 0x02, 0x39, 0x8d
        ]
    );
}

#[test]
fn report_id_with_a_length_of_two_bytes() {
    let id = Pallet::report_id(&KIND, &vec![0xab; 100], &vec![1, 2, 3]);
    assert_eq!(
        id,
        [
            0xf7, 0x37, 0x64, 0x3c, 0x03, 0x28, 0x70, 0x58, 0x9b, 0xc9, 0x85, 0xc7, 0xac, 0x8d,
            0xad, 0xdc, 0xfc, 0x8c, 0x6d, 0x4a, 0x56, 0x33, 0x27, 0xb8, 0x8c, 0x68, 0x08, 0xd5,
            0xdf, 0x5d, 0x2f, 0x94
        ]
    );
}

#[test]
fn report_id_with_a_length_of_four_bytes() {
    let id = Pallet::report_id(&KIND, &vec![0x5a; 20000], &vec![9]);
    assert_eq!(
        id,
        [
            0x44, 0xee, 0xbd, 0x7b, 0xb7, 0x18, 0x14, 0x3f, 0x7c, 0x98, 0x21, 0x2c, 0x32, 0x90,
            0xca, 0x27, 0xac, 0xb3, 0x7d, 0xf6, 0x4b, 0xe5, 0x69, 0xdb, 0x2a, 0x4e, 0xe9, 0x11,
            0x75, 0x28, 0xa3, 0x10
        ]
    );
}

#[test]
fn report_id_at_the_edges_of_the_length_classes() {
    assert_eq!(
        Pallet::report_id(&KIND, &vec![1; 63], &vec![2; 64]),
        [
            0x74, 0x1a, 0x46, 0x3c, 0xd8, 0xd9, 0x95, 0x88, 0x4e, 0x90, 0xc2, 0xc0, 0x8e, 0x3c,
            0xe3, 0x6e, 0x88, 0xaf, 0xc7, 0x70, 0x68, 0x1f, 0xdf, 0xa3, 0xc9, 0x34, 0x15, 0x3d,
            0x52, 0x69, 0x25, 0xa6
        ]
    );
    assert_eq!(
        Pallet::report_id(&KIND, &vec![1; 64], &vec![2; 63]),
        [
            0x61, 0x47, 0xa6, 0xfa, 0x4c, 0x1d, 0x64, 0x6c, 0xf5, 0xc2, 0x60, 0xcc, 0x03, 0x99,
            0x1c, 0x09, 0xb4, 0x0f, 0x7a, 0xf4, 0x27, 0x4e, 0xed, 0x19, 0x1f, 0x9c, 0xc8, 0x5f,
            0xb8, 0x0c, 0xdd, 0x73
        ]
    );
    assert_eq!(
        Pallet::report_id(&KIND, &vec![3; 16383], &vec![4]),
        [
            0xf2, 0xe2, 0x23, 0x1c, 0x89, 0xf6, 0x43, 0x22, 0xe4, 0x16, 0x06, 0xb0, 0x21, 0x0b,
            0xe8, 0x54, 0xc0, 0x70, 0x70, 0xce, 0x69, 0xf1, 0x80, 0x2a, 0x10, 0x64, 0x83, 0x18,
            0x2d, 0xf1, 0xe4, 0x8b
        ]
    );
    assert_eq!(
        Pallet::report_id(&KIND, &vec![3; 16384], &vec![4]),
        [
            0x61, 0xd3, 0xb7, 0x86, 0xee, 0x43, 0x14, 0xa2, 0x2a, 0xf8, 0xb1, 0xb1, 0x10, 0x20,
            0x38, 0x4f, 0xcb, 0x83, 0x67, 0x41, 0x9b, 0xce, 0x83, 0xc3, 0x64, 0xdd, 0x6f, 0x12,
            0xf2, 0xbd, 0x60, 0x53
        ]
    );
}

#[test]
fn report_id_is_the_digest_of_the_encoded_triple() {
    let slot = vec![3u8, 1, 4, 1, 5];
    let offender: [u8; 4] = [2, 7, 1, 8];
    let encoded = (KIND, slot.clone(), offender).encode();
    assert_eq!(encoded.len(), 16 + 1 + 5 + 4);
    assert_eq!(
        Pallet::report_id(&KIND, &slot, &offender.to_vec()),
        <BlakeTwo256 as sp_runtime::traits::Hash>::hash(&encoded).0
    );
}

#[test]
fn report_id_tells_kind_slot_and_offender_apart() {
    let base = Pallet::report_id(&KIND, &vec![1, 2], &vec![3]);
    assert_eq!(base, Pallet::report_id(&KIND, &vec![1, 2], &vec![3]));
    assert_ne!(base, Pallet::report_id(&KIND, &vec![1], &vec![2, 3]));
    assert_ne!(base, Pallet::report_id(&KIND, &vec![1, 2], &vec![4]));
    assert_ne!(base, Pallet::report_id(b"grandpa:equivoca", &vec![1, 2], &vec![3]));
}
