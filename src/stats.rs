//! Account statistics records.
//!
//! A record is two magic bytes, the account id, the number of tanks, and
//! for each tank its id, battle count and win count; every number is a
//! varint.

use vstd::prelude::*;
use crate::protobuf::{read_uvarint, uvarint_field, uvarint_scan};
use crate::stream::{ByteStream, StreamError};

verus! {

/// The value of both header bytes of a record.
pub const HEADER_BYTE: u8 = 0x3e;

/// Statistics of one account on one tank.
#[derive(Clone, Copy, Debug, PartialEq, Eq, Structural)]
pub struct Tank {
    pub id: u32,
    pub battles: u32,
    pub wins: u32,
}

/// An account with its tanks in the order of the record.
#[derive(Debug)]
pub struct Account {
    pub id: u32,
    pub tanks: Vec<Tank>,
}

/// What reading a record header at `pos` gives: the position after it, the
/// end of the stream when no byte is left, or an error.
pub open spec fn header_at(s: Seq<u8>, pos: int) -> Result<Option<int>, StreamError> {
    if pos >= s.len() {
        Ok(None)
    } else if pos + 1 >= s.len() {
        Err(StreamError::Truncated)
    } else if s[pos] != HEADER_BYTE || s[pos + 1] != HEADER_BYTE {
        Err(StreamError::BadHeader)
    } else {
        Ok(Some(pos + 2))
    }
}

/// The tank triple at `pos` and the position after it.
pub open spec fn tank_at(s: Seq<u8>, pos: int) -> Option<(Tank, int)> {
    match uvarint_field(s, pos) {
        None => None,
        Some((id, after_first)) => match uvarint_field(s, after_first) {
            None => None,
            Some((battles, after_second)) => match uvarint_field(s, after_second) {
                None => None,
                Some((wins, after_third)) => Some((Tank { id, battles, wins }, after_third)),
            },
        },
    }
}

/// The first `n` tank triples from `pos` and the position after them.
pub open spec fn tanks_at(s: Seq<u8>, pos: int, n: nat) -> Option<(Seq<Tank>, int)>
    decreases n,
{
    if n == 0 {
        Some((seq![], pos))
    } else {
        match tanks_at(s, pos, (n - 1) as nat) {
            None => None,
            Some((tanks, p)) => match tank_at(s, p) {
                None => None,
                Some((t, q)) => Some((tanks.push(t), q)),
            },
        }
    }
}

/// What reading a record at `pos` gives: the account id, the tanks and the
/// position after the record; the end of the stream when no byte is left;
/// or an error.
pub open spec fn account_at(s: Seq<u8>, pos: int) -> Result<Option<(u32, Seq<Tank>, int)>, StreamError> {
    match header_at(s, pos) {
        Err(e) => Err(e),
        Ok(None) => Ok(None),
        Ok(Some(p)) => match uvarint_field(s, p) {
            None => Err(StreamError::Truncated),
            Some((id, after_first)) => match uvarint_field(s, after_first) {
                None => Err(StreamError::Truncated),
                Some((n, after_second)) => match tanks_at(s, after_second, n as nat) {
                    None => Err(StreamError::Truncated),
                    Some((tanks, after_third)) => Ok(Some((id, tanks, after_third))),
                },
            },
        },
    }
}

proof fn lemma_scan_advances(s: Seq<u8>, pos: int, value: u32, shift: u32)
    ensures
        uvarint_scan(s, pos, value, shift) matches Some((_, next)) ==> pos < next <= s.len(),
    decreases s.len() - pos,
{
    if 0 <= pos < s.len() {
        let b = s[pos];
        let v = if shift < 32 { value | (((b & 0x7f) as u32) << shift) } else { value };
        let sh = if shift < 32 { (shift + 7) as u32 } else { shift };
        lemma_scan_advances(s, pos + 1, v, sh);
    }
}

proof fn lemma_tanks_advance(s: Seq<u8>, pos: int, n: nat)
    requires
        pos <= s.len(),
    ensures
        tanks_at(s, pos, n) matches Some((tanks, next)) ==> tanks.len() == n && pos + n <= next <= s.len(),
    decreases n,
{
    if n > 0 {
        lemma_tanks_advance(s, pos, (n - 1) as nat);
        if let Some((_, p)) = tanks_at(s, pos, (n - 1) as nat) {
            lemma_scan_advances(s, p, 0, 0);
            if let Some((_, after_first)) = uvarint_field(s, p) {
                lemma_scan_advances(s, after_first, 0, 0);
                if let Some((_, after_second)) = uvarint_field(s, after_first) {
                    lemma_scan_advances(s, after_second, 0, 0);
                }
            }
        }
    }
}

proof fn lemma_tanks_fail_after(s: Seq<u8>, pos: int, i: nat, n: nat)
    requires
        i <= n,
        tanks_at(s, pos, i) is None,
    ensures
        tanks_at(s, pos, n) is None,
    decreases n,
{
    if i < n {
        lemma_tanks_fail_after(s, pos, i, (n - 1) as nat);
    }
}

/// A record that was read ends at least two bytes, plus one per tank,
/// after its start.
pub proof fn lemma_account_advances(s: Seq<u8>, pos: int)
    ensures
        account_at(s, pos) matches Ok(Some((_, tanks, next))) ==> pos + 2 + tanks.len() <= next <= s.len(),
{
    if let Ok(Some(p)) = header_at(s, pos) {
        lemma_scan_advances(s, p, 0, 0);
        if let Some((_, after_first)) = uvarint_field(s, p) {
            lemma_scan_advances(s, after_first, 0, 0);
            if let Some((n, after_second)) = uvarint_field(s, after_first) {
                lemma_tanks_advance(s, after_second, n as nat);
            }
        }
    }
}

/// The records from `pos` to the end of the stream, as account ids with
/// their tanks, or the error that stops the reading.
pub open spec fn records_at(s: Seq<u8>, pos: int) -> Result<Seq<(u32, Seq<Tank>)>, StreamError>
    decreases s.len() - pos,
    via records_at_decreases
{
    match account_at(s, pos) {
        Err(e) => Err(e),
        Ok(None) => Ok(seq![]),
        Ok(Some((id, tanks, next))) => match records_at(s, next) {
            Err(e) => Err(e),
            Ok(rest) => Ok(seq![(id, tanks)] + rest),
        },
    }
}

#[via_fn]
proof fn records_at_decreases(s: Seq<u8>, pos: int) {
    lemma_account_advances(s, pos);
}

/// Reads the two header bytes of the next record: `Ok(false)` when the
/// stream is exhausted, `Ok(true)` after a valid header.
fn skip_account_header(input: &mut ByteStream) -> (r: Result<bool, StreamError>)
    ensures
        final(input).data@ == old(input).data@,
        match header_at(old(input).data@, old(input).pos as int) {
            Ok(Some(next)) => r == Ok::<bool, StreamError>(true) && final(input).pos == next,
            Ok(None) => r == Ok::<bool, StreamError>(false) && final(input).pos == old(input).pos,
            Err(e) => r == Err::<bool, StreamError>(e),
        },
{
    let first = match input.read_byte() {
        None => return Ok(false),
        Some(b) => b,
    };
    let second = match input.read_byte() {
        None => return Err(StreamError::Truncated),
        Some(b) => b,
    };
    if first != HEADER_BYTE || second != HEADER_BYTE {
        return Err(StreamError::BadHeader);
    }
    Ok(true)
}

/// Reads a varint that a record requires: the end of the stream there is a
/// truncated record.
fn read_field(input: &mut ByteStream) -> (r: Result<u32, StreamError>)
    ensures
        final(input).data@ == old(input).data@,
        match uvarint_field(old(input).data@, old(input).pos as int) {
            Some((v, next)) => r == Ok::<u32, StreamError>(v) && final(input).pos == next,
            None => r == Err::<u32, StreamError>(StreamError::Truncated),
        },
{
    match read_uvarint(input) {
        Ok(Some(v)) => Ok(v),
        _ => Err(StreamError::Truncated),
    }
}

/// Reads the next account record, or `None` when the stream is exhausted.
pub fn read_account(input: &mut ByteStream) -> (r: Result<Option<Account>, StreamError>)
    ensures
        final(input).data@ == old(input).data@,
        match account_at(old(input).data@, old(input).pos as int) {
            Ok(Some((id, tanks, next))) => {
                &&& r matches Ok(Some(a))
                &&& a.id == id
                &&& a.tanks@ == tanks
                &&& final(input).pos == next
            },
            Ok(None) => r matches Ok(None) && final(input).pos == old(input).pos,
            Err(e) => r == Err::<Option<Account>, StreamError>(e),
        },
{
    let ghost s = input.data@;
    if !skip_account_header(input)? {
        return Ok(None);
    }
    let account_id = read_field(input)?;
    let tank_count = read_field(input)?;
    let ghost tanks_start = input.pos as int;
    let mut tanks: Vec<Tank> = Vec::new();
    let mut i: u32 = 0;
    while i < tank_count
        invariant
            input.data@ == s,
            s == old(input).data@,
            account_at(s, old(input).pos as int) == match tanks_at(s, tanks_start, tank_count as nat) {
                None => Err(StreamError::Truncated),
                Some((t, p)) => Ok(Some((account_id, t, p))),
            },
            i <= tank_count,
            tanks_at(s, tanks_start, i as nat) == Some((tanks@, input.pos as int)),
        decreases tank_count - i,
    {
        let r1 = read_field(input);
        let r2 = match r1 {
            Ok(_) => read_field(input),
            Err(e) => Err(e),
        };
        let r3 = match r2 {
            Ok(_) => read_field(input),
            Err(e) => Err(e),
        };
        match (r1, r2, r3) {
            (Ok(id), Ok(battles), Ok(wins)) => {
                tanks.push(Tank { id, battles, wins });
            },
            _ => {
                proof {
                    lemma_tanks_fail_after(s, tanks_start, (i + 1) as nat, tank_count as nat);
                }
                return Err(StreamError::Truncated);
            },
        }
        i = i + 1;
    }
    Ok(Some(Account { id: account_id, tanks }))
}

} // verus!
