use btcore::calculate_hash;
use btcore::Piece;

const BLOCK_SIZE: usize = 16384;

#[test]
fn test_new_piece_when_piece_length_divides_block_length_evenly() {
    let length = BLOCK_SIZE * 2;
    let hash = "00112233445566778899".to_string();
    let data = vec![0_u8; length];
    let completed = vec![false; 2];

    let expected_piece = Piece { hash: hash.clone(), data, completed };

    let actual_piece = Piece::new(length, &hash);

    assert_eq!(expected_piece, actual_piece);
}

#[test]
fn test_new_piece_when_piece_length_does_not_divide_block_length_evenly() {
    let length = BLOCK_SIZE * 2 + BLOCK_SIZE / 2;
    let hash = "00112233445566778899".to_string();
    let data = vec![0_u8; length];
    let completed = vec![false; 3];

    let expected_piece = Piece { hash: hash.clone(), data, completed };

    let actual_piece = Piece::new(length, &hash);

    assert_eq!(expected_piece, actual_piece);
}

#[test]
fn test_block_details() {
    let length = BLOCK_SIZE * 2 + BLOCK_SIZE / 2;
    let hash = "00112233445566778899".to_string();
    let piece = Piece::new(length, &hash);
    let block_details = piece.block_details();

    assert_eq!((0_u32, BLOCK_SIZE as u32), block_details[0]);
    assert_eq!((BLOCK_SIZE as u32, BLOCK_SIZE as u32), block_details[1]);
    assert_eq!((BLOCK_SIZE as u32 * 2, BLOCK_SIZE as u32 / 2), block_details[2]);
    assert_eq!(3, block_details.len());
}

#[test]
fn test_update_block() {
    let length = BLOCK_SIZE * 2 + BLOCK_SIZE / 2;
    let hash = "00112233445566778899".to_string();
    let mut actual_piece = Piece::new(length, &hash);

    let mut expected_data = vec![0_u8; length];
    expected_data[BLOCK_SIZE..BLOCK_SIZE * 2].fill(1_u8);
    let expected_completed = vec![false, true, false];

    let expected_piece = Piece { hash: hash.clone(), data: expected_data, completed: expected_completed };

    actual_piece.update_block(BLOCK_SIZE, vec![1_u8; BLOCK_SIZE]);

    assert_eq!(expected_piece, actual_piece);
}

#[test]
fn test_is_complete() {
    let length = BLOCK_SIZE * 2 + BLOCK_SIZE / 2;
    let hash = "00112233445566778899".to_string();
    let mut actual_piece = Piece::new(length, &hash);

    assert!(!actual_piece.is_complete());

    actual_piece.update_block(0, vec![1_u8; BLOCK_SIZE]);
    actual_piece.update_block(BLOCK_SIZE, vec![1_u8; BLOCK_SIZE]);
    actual_piece.update_block(BLOCK_SIZE * 2, vec![1_u8; BLOCK_SIZE / 2]);

    assert!(actual_piece.is_complete());
}

#[test]
fn test_is_valid() {
    let length = BLOCK_SIZE * 2 + BLOCK_SIZE / 2;
    let expected_data = vec![1_u8; length];
    let hash = calculate_hash(&expected_data);

    let mut actual_piece = Piece::new(length, &hash);

    assert!(!actual_piece.is_valid());

    actual_piece.update_block(0, vec![1_u8; BLOCK_SIZE]);
    actual_piece.update_block(BLOCK_SIZE, vec![1_u8; BLOCK_SIZE]);
    actual_piece.update_block(BLOCK_SIZE * 2, vec![1_u8; BLOCK_SIZE / 2]);

    assert!(actual_piece.is_valid());
}

#[test]
fn test_calculate_hash_known_digest() {
    assert_eq!(calculate_hash("".as_bytes()), "da39a3ee5e6b4b0d3255bfef95601890afd80709");
    assert_eq!(
        calculate_hash("abc".as_bytes()),
        "a9993e364706816aba3e25717850c26c9cd0d89d"
    );
}
