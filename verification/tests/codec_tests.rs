use uzh_biomed_bot::chat::Chat;
use uzh_biomed_bot::codec::encode_chats;
use uzh_biomed_bot::codec::parse_chats;
use uzh_biomed_bot::store::StorageError;

fn chats_of(ids: &[i64]) -> Vec<Chat> {
    ids.iter().map(|&id| Chat { id }).collect()
}

#[test]
fn encode_writes_one_decimal_line_per_chat() {
    let bytes = encode_chats(&chats_of(&[1, -5, 0]));
    assert_eq!(bytes, b"1\n-5\n0\n".to_vec());
}

#[test]
fn encode_of_empty_store_is_empty_file() {
    let bytes = encode_chats(&chats_of(&[]));
    assert_eq!(bytes, Vec::<u8>::new());
}

#[test]
fn parse_reads_back_canonical_lines() {
    let chats = parse_chats(b"12\n-7\n0\n9000000000\n").unwrap();
    assert_eq!(chats, chats_of(&[12, -7, 0, 9000000000]));
}

#[test]
fn parse_of_empty_file_is_empty_set() {
    assert_eq!(parse_chats(b"").unwrap(), vec![]);
}

#[test]
fn parse_round_trips_what_encode_wrote() {
    let ids = [i64::MIN, -1, 0, 1, 42, i64::MAX, 1234567890123456789];
    let chats = chats_of(&ids);
    let bytes = encode_chats(&chats);
    assert_eq!(parse_chats(&bytes).unwrap(), chats);
}

#[test]
fn parse_rejects_missing_final_newline() {
    assert_eq!(parse_chats(b"1\n2"), Err(StorageError::Parse));
}

#[test]
fn parse_rejects_empty_line() {
    assert_eq!(parse_chats(b"\n"), Err(StorageError::Parse));
    assert_eq!(parse_chats(b"1\n\n2\n"), Err(StorageError::Parse));
}

#[test]
fn parse_rejects_non_digits() {
    assert_eq!(parse_chats(b"12a\n"), Err(StorageError::Parse));
    assert_eq!(parse_chats(b" 1\n"), Err(StorageError::Parse));
    assert_eq!(parse_chats(b"1 \n"), Err(StorageError::Parse));
}

#[test]
fn parse_rejects_non_canonical_forms() {
    assert_eq!(parse_chats(b"01\n"), Err(StorageError::Parse));
    assert_eq!(parse_chats(b"-0\n"), Err(StorageError::Parse));
    assert_eq!(parse_chats(b"00\n"), Err(StorageError::Parse));
    assert_eq!(parse_chats(b"--1\n"), Err(StorageError::Parse));
    assert_eq!(parse_chats(b"-\n"), Err(StorageError::Parse));
}

#[test]
fn parse_respects_the_i64_range_exactly() {
    assert_eq!(
        parse_chats(b"9223372036854775807\n").unwrap(),
        chats_of(&[i64::MAX])
    );
    assert_eq!(
        parse_chats(b"-9223372036854775808\n").unwrap(),
        chats_of(&[i64::MIN])
    );
    assert_eq!(
        parse_chats(b"9223372036854775808\n"),
        Err(StorageError::Parse)
    );
    assert_eq!(
        parse_chats(b"-9223372036854775809\n"),
        Err(StorageError::Parse)
    );
    assert_eq!(
        parse_chats(b"99999999999999999999999\n"),
        Err(StorageError::Parse)
    );
}
