use cf_trainer::cf::{Rating, RatingTable};
use cf_trainer::stats::{Account, Tank};
use cf_trainer::stream::{ByteStream, StreamError};
use cf_trainer::trainer::{evaluate, insert_account, read_ratings, split_account, Tally};

fn encode(mut v: u32, out: &mut Vec<u8>) {
    while v >= 0x80 {
        out.push((v & 0x7f) as u8 | 0x80);
        v >>= 7;
    }
    out.push(v as u8);
}

fn record(id: u32, tanks: &[(u32, u32, u32)], out: &mut Vec<u8>) {
    out.extend_from_slice(&[0x3e, 0x3e]);
    encode(id, out);
    encode(tanks.len() as u32, out);
    for &(tank, battles, wins) in tanks {
        encode(tank, out);
        encode(battles, out);
        encode(wins, out);
    }
}

#[test]
fn test_insert_account() {
    let mut rating_table = RatingTable::new();
    insert_account(&mut rating_table, Account { id: 100, tanks: vec![
        Tank { id: 1, battles: 1000, wins: 500 },
        Tank { id: 2, battles: 500, wins: 200 }
    ]}, false);
    insert_account(&mut rating_table, Account { id: 101, tanks: vec![
        Tank { id: 2, battles: 700, wins: 300 },
        Tank { id: 3, battles: 500, wins: 100 }
    ]}, false);
    insert_account(&mut rating_table, Account { id: 102, tanks: vec![
        Tank { id: 4, battles: 100, wins: 150 },
        Tank { id: 5, battles: 400, wins: 200 }
    ]}, true);
    assert_eq!(rating_table.len(), 4);
    assert_eq!(rating_table.get(1).unwrap().len(), 1);
    assert_eq!(rating_table.get(2).unwrap().len(), 2);
    assert_eq!(rating_table.get(3).unwrap().len(), 1);
    assert_eq!(rating_table.get(4).unwrap().len(), 1);
}

#[test]
fn test_read_ratings() {
    let rating_table = read_ratings(&mut ByteStream::new(
        vec![0x3e, 0x3e, 0x03, 0x01, 0x8E, 0x02, 0x9E, 0xA7, 0x05, 0x9D, 0xA7, 0x05])).unwrap();
    assert_eq!(rating_table.get(270).unwrap()[0].id, 3);
    let entry = rating_table.get(270).unwrap()[0];
    assert!(entry.wins as f32 / entry.battles as f32 > 0.999988);
}

#[test]
fn insert_account_skips_tanks_with_few_battles() {
    let mut table = RatingTable::new();
    insert_account(&mut table, Account { id: 5, tanks: vec![
        Tank { id: 1, battles: 9, wins: 9 },
        Tank { id: 2, battles: 10, wins: 4 },
    ]}, false);
    assert_eq!(table.get(1), None);
    assert_eq!(table.get(2), Some(&vec![Rating { id: 5, wins: 4, battles: 10 }]));
}

#[test]
fn insert_account_appends_in_account_order() {
    let mut table = RatingTable::new();
    insert_account(&mut table, Account { id: 1, tanks: vec![Tank { id: 7, battles: 20, wins: 1 }] }, false);
    insert_account(&mut table, Account { id: 2, tanks: vec![Tank { id: 7, battles: 30, wins: 2 }] }, false);
    insert_account(&mut table, Account { id: 1, tanks: vec![Tank { id: 7, battles: 40, wins: 3 }] }, false);
    assert_eq!(table.get(7), Some(&vec![
        Rating { id: 1, wins: 1, battles: 20 },
        Rating { id: 2, wins: 2, battles: 30 },
        Rating { id: 1, wins: 3, battles: 40 },
    ]));
}

#[test]
fn read_ratings_keeps_even_positions() {
    let mut bytes = Vec::new();
    record(1, &[(10, 100, 50), (11, 100, 60), (12, 100, 70)], &mut bytes);
    record(2, &[(11, 50, 5), (10, 50, 10)], &mut bytes);
    let table = read_ratings(&mut ByteStream::new(bytes)).unwrap();
    assert_eq!(table.len(), 3);
    assert_eq!(table.get(10), Some(&vec![Rating { id: 1, wins: 50, battles: 100 }]));
    assert_eq!(table.get(11), Some(&vec![Rating { id: 2, wins: 5, battles: 50 }]));
    assert_eq!(table.get(12), Some(&vec![Rating { id: 1, wins: 70, battles: 100 }]));
}

#[test]
fn read_ratings_of_empty_stream() {
    assert_eq!(read_ratings(&mut ByteStream::new(vec![])).unwrap().len(), 0);
}

#[test]
fn read_ratings_fails_on_malformed_stream() {
    let mut bytes = Vec::new();
    record(1, &[(10, 100, 50)], &mut bytes);
    bytes.extend_from_slice(&[0x3e, 0x00]);
    assert_eq!(read_ratings(&mut ByteStream::new(bytes.clone())).err(), Some(StreamError::BadHeader));
    bytes.truncate(bytes.len() - 1);
    assert_eq!(read_ratings(&mut ByteStream::new(bytes)).err(), Some(StreamError::Truncated));
}

#[test]
fn split_account_by_position() {
    let account = Account { id: 1, tanks: vec![
        Tank { id: 1, battles: 100, wins: 60 },
        Tank { id: 2, battles: 100, wins: 70 },
        Tank { id: 3, battles: 100, wins: 40 },
        Tank { id: 4, battles: 5, wins: 5 },
        Tank { id: 5, battles: 9, wins: 1 },
        Tank { id: 6, battles: 10, wins: 2 },
    ]};
    let split = split_account(&account);
    assert_eq!(split.known, vec![Rating { id: 1, wins: 60, battles: 100 }, Rating { id: 3, wins: 40, battles: 100 }]);
    assert_eq!(split.wins, 100);
    assert_eq!(split.battles, 200);
    assert_eq!(split.held_out, vec![Rating { id: 2, wins: 70, battles: 100 }, Rating { id: 6, wins: 2, battles: 10 }]);
}

#[test]
fn evaluate_counts_agreeing_sides() {
    let mut bytes = Vec::new();
    // Baseline 100 / 200. Held out: 70 / 100 is above, 2 / 10 is not, and
    // the tank with 5 battles is not compared.
    record(1, &[(1, 100, 60), (2, 100, 70), (3, 100, 40), (4, 5, 5), (5, 9, 1), (6, 10, 2)], &mut bytes);
    // No known tank: the baseline has no battles and no ratio lies above it.
    record(2, &[(1, 5, 1), (2, 40, 30)], &mut bytes);
    let mut input = ByteStream::new(bytes);
    // Predicts "above" for every item but 6.
    let tally = evaluate(&mut input, |_: &Vec<Rating>, item: u32, _: u128, _: u128| item != 6).unwrap();
    // Item 2 of account 1 agrees, item 6 agrees, item 2 of account 2 does not.
    assert_eq!(tally, Tally { total: 3, hits: 2 });
}

#[test]
fn evaluate_hands_over_known_ratings_and_baseline() {
    let mut bytes = Vec::new();
    record(9, &[(1, 100, 60), (2, 100, 70), (3, 100, 40)], &mut bytes);
    let mut input = ByteStream::new(bytes);
    let tally = evaluate(&mut input, |known: &Vec<Rating>, item: u32, wins: u128, battles: u128| {
        assert_eq!(known, &vec![Rating { id: 1, wins: 60, battles: 100 }, Rating { id: 3, wins: 40, battles: 100 }]);
        assert_eq!((item, wins, battles), (2, 100, 200));
        false
    })
    .unwrap();
    assert_eq!(tally, Tally { total: 1, hits: 0 });
}

#[test]
fn evaluate_of_empty_stream_attempts_nothing() {
    let tally = evaluate(&mut ByteStream::new(vec![]), |_: &Vec<Rating>, _: u32, _: u128, _: u128| true).unwrap();
    assert_eq!(tally, Tally { total: 0, hits: 0 });
}

#[test]
fn evaluate_fails_on_malformed_stream() {
    let result = evaluate(&mut ByteStream::new(vec![0x3e, 0x3e, 0x01, 0x01, 0x80]), |_: &Vec<Rating>, _: u32, _: u128, _: u128| true);
    assert_eq!(result, Err(StreamError::Truncated));
}
