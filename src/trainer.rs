//! Building the rating table from account records, and the held-out
//! evaluation of a model.
//!
//! Both split an account's tanks by position: even positions are known,
//! odd positions are held out.

use vstd::prelude::*;
use crate::cf::{entries_of, Rating, RatingTable};
use crate::stats::{read_account, records_at, lemma_account_advances, Account, Tank};
use crate::stream::{ByteStream, StreamError};

verus! {

/// Tanks with fewer battles than this are ignored.
pub const MIN_BATTLES: u32 = 10;

/// Whether the tank at position `i` of an account goes into the table.
pub open spec fn retained(tank: Tank, i: int, skip_odd: bool) -> bool {
    tank.battles >= MIN_BATTLES && !(skip_odd && i % 2 == 1)
}

/// The rating that `account_id` gives the item of `tank`.
pub open spec fn account_rating(account_id: u32, tank: Tank) -> Rating {
    Rating { id: account_id, wins: tank.wins, battles: tank.battles }
}

/// `table` after the first `n` tanks of an account were considered in order.
pub open spec fn insert_tanks(
    table: Map<u32, Seq<Rating>>,
    account_id: u32,
    tanks: Seq<Tank>,
    skip_odd: bool,
    n: nat,
) -> Map<u32, Seq<Rating>>
    decreases n,
{
    if n == 0 {
        table
    } else {
        let prev = insert_tanks(table, account_id, tanks, skip_odd, (n - 1) as nat);
        let tank = tanks[n - 1];
        if retained(tank, n - 1, skip_odd) {
            prev.insert(tank.id, entries_of(prev, tank.id).push(account_rating(account_id, tank)))
        } else {
            prev
        }
    }
}

/// `table` with the ratings of one account added.
pub open spec fn with_account(table: Map<u32, Seq<Rating>>, account_id: u32, tanks: Seq<Tank>, skip_odd: bool) -> Map<
    u32,
    Seq<Rating>,
> {
    insert_tanks(table, account_id, tanks, skip_odd, tanks.len())
}

/// The training table of a sequence of records: each account added in
/// turn, with its odd positions skipped.
pub open spec fn table_of(records: Seq<(u32, Seq<Tank>)>) -> Map<u32, Seq<Rating>>
    decreases records.len(),
{
    if records.len() == 0 {
        Map::empty()
    } else {
        let last = records.last();
        with_account(table_of(records.drop_last()), last.0, last.1, true)
    }
}

/// Adds to the table, for each tank of the account with at least
/// `MIN_BATTLES` battles (and, with `skip_odd`, at an even position), the
/// account's rating of that tank, after those the tank already has.
pub fn insert_account(rating_table: &mut RatingTable, account: Account, skip_odd: bool)
    requires
        old(rating_table).wf(),
    ensures
        final(rating_table).wf(),
        final(rating_table)@ == with_account(old(rating_table)@, account.id, account.tanks@, skip_odd),
{
    let mut i: usize = 0;
    while i < account.tanks.len()
        invariant
            i <= account.tanks@.len(),
            rating_table.wf(),
            rating_table@ == insert_tanks(old(rating_table)@, account.id, account.tanks@, skip_odd, i as nat),
        decreases account.tanks@.len() - i,
    {
        let tank = account.tanks[i];
        if tank.battles >= MIN_BATTLES && !(skip_odd && i % 2 == 1) {
            rating_table.push(tank.id, Rating { id: account.id, wins: tank.wins, battles: tank.battles });
        }
        i = i + 1;
    }
}

/// Reads all records and builds the training table from them.
pub fn read_ratings(input: &mut ByteStream) -> (r: Result<RatingTable, StreamError>)
    ensures
        final(input).data@ == old(input).data@,
        match records_at(old(input).data@, old(input).pos as int) {
            Ok(records) => r matches Ok(table) && table.wf() && table@ == table_of(records),
            Err(e) => r matches Err(e2) && e2 == e,
        },
{
    let ghost s = input.data@;
    let ghost start = input.pos as int;
    let ghost mut done: Seq<(u32, Seq<Tank>)> = seq![];
    let mut rating_table = RatingTable::new();
    loop
        invariant
            input.data@ == s,
            s == old(input).data@,
            start == old(input).pos,
            input.pos <= s.len() || input.pos == start,
            rating_table.wf(),
            rating_table@ == table_of(done),
            records_at(s, start) == match records_at(s, input.pos as int) {
                Ok(rest) => Ok(done + rest),
                Err(e) => Err(e),
            },
        decreases s.len() - input.pos,
    {
        proof {
            lemma_account_advances(s, input.pos as int);
        }
        match read_account(input)? {
            None => {
                assert(done + seq![] =~= done);
                return Ok(rating_table);
            },
            Some(account) => {
                let ghost record = (account.id, account.tanks@);
                proof {
                    let rest = records_at(s, input.pos as int);
                    if let Ok(rest) = rest {
                        assert(done.push(record) + rest =~= done + (seq![record] + rest));
                    }
                    assert(done.push(record).drop_last() =~= done);
                    done = done.push(record);
                }
                insert_account(&mut rating_table, account, true);
            },
        }
    }
}

/// Among the first `n` tanks, those at positions of the given parity (0:
/// even, 1: odd) with at least `MIN_BATTLES` battles.
pub open spec fn part_of(tanks: Seq<Tank>, n: nat, parity: int) -> Seq<Tank>
    decreases n,
{
    if n == 0 {
        seq![]
    } else {
        let prefix = part_of(tanks, (n - 1) as nat, parity);
        let tank = tanks[n - 1];
        if (n - 1) % 2 == parity && tank.battles >= MIN_BATTLES {
            prefix.push(tank)
        } else {
            prefix
        }
    }
}

/// The known tanks of an account: even positions, enough battles.
pub open spec fn known_of(tanks: Seq<Tank>) -> Seq<Tank> {
    part_of(tanks, tanks.len(), 0)
}

/// The held-out tanks of an account: odd positions, enough battles.
pub open spec fn held_out_of(tanks: Seq<Tank>) -> Seq<Tank> {
    part_of(tanks, tanks.len(), 1)
}

/// A tank as the rating of its item.
pub open spec fn item_rating(tank: Tank) -> Rating {
    Rating { id: tank.id, wins: tank.wins, battles: tank.battles }
}

/// The wins of `tanks` added up.
pub open spec fn total_wins(tanks: Seq<Tank>) -> int
    decreases tanks.len(),
{
    if tanks.len() == 0 {
        0
    } else {
        total_wins(tanks.drop_last()) + tanks.last().wins
    }
}

/// The battles of `tanks` added up.
pub open spec fn total_battles(tanks: Seq<Tank>) -> int
    decreases tanks.len(),
{
    if tanks.len() == 0 {
        0
    } else {
        total_battles(tanks.drop_last()) + tanks.last().battles
    }
}

/// Whether `wins / battles` lies above `base_wins / base_battles`, compared
/// exactly; never when the base has no battles.
pub open spec fn ratio_above(wins: int, battles: int, base_wins: int, base_battles: int) -> bool {
    wins * base_battles > base_wins * battles
}

/// The number of held-out tanks over a sequence of records.
pub open spec fn held_out_count(records: Seq<(u32, Seq<Tank>)>) -> int
    decreases records.len(),
{
    if records.len() == 0 {
        0
    } else {
        held_out_count(records.drop_last()) + held_out_of(records.last().1).len()
    }
}

/// An account's tanks split for evaluation.
pub struct AccountSplit {
    /// The known tanks as ratings of their items, in order.
    pub known: Vec<Rating>,
    /// The wins of the known tanks added up.
    pub wins: u128,
    /// The battles of the known tanks added up.
    pub battles: u128,
    /// The held-out tanks as ratings of their items, in order.
    pub held_out: Vec<Rating>,
}

proof fn lemma_part_len(tanks: Seq<Tank>, n: nat, parity: int)
    ensures
        part_of(tanks, n, parity).len() <= n,
    decreases n,
{
    if n > 0 {
        lemma_part_len(tanks, (n - 1) as nat, parity);
    }
}

/// Splits an account's tanks into the known half, with its total wins and
/// battles, and the held-out half.
pub fn split_account(account: &Account) -> (r: AccountSplit)
    ensures
        r.known@ == known_of(account.tanks@).map_values(|t: Tank| item_rating(t)),
        r.wins == total_wins(known_of(account.tanks@)),
        r.battles == total_battles(known_of(account.tanks@)),
        r.held_out@ == held_out_of(account.tanks@).map_values(|t: Tank| item_rating(t)),
        r.wins <= 0xffff_ffff_ffff_ffff * 0xffff_ffff,
        r.battles <= 0xffff_ffff_ffff_ffff * 0xffff_ffff,
{
    let ghost tanks = account.tanks@;
    let mut known: Vec<Rating> = Vec::new();
    let mut held_out: Vec<Rating> = Vec::new();
    let mut wins: u128 = 0;
    let mut battles: u128 = 0;
    let mut i: usize = 0;
    while i < account.tanks.len()
        invariant
            tanks == account.tanks@,
            i <= tanks.len(),
            known@ == part_of(tanks, i as nat, 0).map_values(|t: Tank| item_rating(t)),
            held_out@ == part_of(tanks, i as nat, 1).map_values(|t: Tank| item_rating(t)),
            wins == total_wins(part_of(tanks, i as nat, 0)),
            battles == total_battles(part_of(tanks, i as nat, 0)),
            wins <= i * 0xffff_ffff,
            battles <= i * 0xffff_ffff,
        decreases tanks.len() - i,
    {
        let tank = account.tanks[i];
        let ghost known_before = part_of(tanks, i as nat, 0);
        let ghost held_before = part_of(tanks, i as nat, 1);
        if tank.battles >= MIN_BATTLES {
            let rating = Rating { id: tank.id, wins: tank.wins, battles: tank.battles };
            if i % 2 == 0 {
                known.push(rating);
                wins = wins + tank.wins as u128;
                battles = battles + tank.battles as u128;
                proof {
                    assert(known_before.push(tank).drop_last() =~= known_before);
                    assert(known_before.push(tank).map_values(|t: Tank| item_rating(t))
                        =~= known_before.map_values(|t: Tank| item_rating(t)).push(rating));
                }
            } else {
                held_out.push(rating);
                proof {
                    assert(held_before.push(tank).map_values(|t: Tank| item_rating(t))
                        =~= held_before.map_values(|t: Tank| item_rating(t)).push(rating));
                }
            }
        }
        i = i + 1;
    }
    proof {
        assert(i as int <= 0xffff_ffff_ffff_ffff);
    }
    AccountSplit { known, wins, battles, held_out }
}

fn above(wins: u32, battles: u32, base_wins: u128, base_battles: u128) -> (r: bool)
    requires
        base_wins <= 0xffff_ffff_ffff_ffff * 0xffff_ffff,
        base_battles <= 0xffff_ffff_ffff_ffff * 0xffff_ffff,
    ensures
        r == ratio_above(wins as int, battles as int, base_wins as int, base_battles as int),
{
    assert(wins as u128 * base_battles <= 0xffff_ffff * (0xffff_ffff_ffff_ffff * 0xffff_ffff)) by (nonlinear_arith)
        requires
            wins <= 0xffff_ffff,
            base_battles <= 0xffff_ffff_ffff_ffff * 0xffff_ffff,
    ;
    assert(base_wins * battles as u128 <= (0xffff_ffff_ffff_ffff * 0xffff_ffff) * 0xffff_ffff) by (nonlinear_arith)
        requires
            battles <= 0xffff_ffff,
            base_wins <= 0xffff_ffff_ffff_ffff * 0xffff_ffff,
    ;
    wins as u128 * base_battles > base_wins * battles as u128
}

/// Held-out comparisons attempted, and those whose predicted side of the
/// account's baseline matched the true side.
#[derive(Clone, Copy, Debug, PartialEq, Eq, Structural)]
pub struct Tally {
    pub total: u64,
    pub hits: u64,
}

/// Evaluates a model on all records of the stream.
///
/// For each account, the baseline is the ratio of the summed wins to the
/// summed battles of its known tanks. For each held-out tank, its true
/// ratio is compared with the baseline, and `predicts_above` is asked
/// whether the ratio predicted from the known ratings lies above it; a hit
/// is counted when both answers agree. Precision is `hits / total`.
pub fn evaluate<F: Fn(&Vec<Rating>, u32, u128, u128) -> bool>(input: &mut ByteStream, predicts_above: F) -> (r: Result<
    Tally,
    StreamError,
>)
    requires
        forall|known: Vec<Rating>, item: u32, wins: u128, battles: u128|
            call_requires(predicts_above, (&known, item, wins, battles)),
    ensures
        final(input).data@ == old(input).data@,
        match records_at(old(input).data@, old(input).pos as int) {
            Ok(records) => r matches Ok(tally) && tally.total == held_out_count(records) && tally.hits <= tally.total,
            Err(e) => r matches Err(e2) && e2 == e,
        },
{
    let ghost s = input.data@;
    let ghost start = input.pos as int;
    let ghost mut done: Seq<(u32, Seq<Tank>)> = seq![];
    let mut tally = Tally { total: 0, hits: 0 };
    loop
        invariant
            input.data@ == s,
            s == old(input).data@,
            start == old(input).pos,
            input.pos <= s.len() || input.pos == start,
            forall|known: Vec<Rating>, item: u32, wins: u128, battles: u128|
                call_requires(predicts_above, (&known, item, wins, battles)),
            tally.total == held_out_count(done),
            tally.hits <= tally.total,
            tally.total <= input.pos,
            records_at(s, start) == match records_at(s, input.pos as int) {
                Ok(rest) => Ok(done + rest),
                Err(e) => Err(e),
            },
        decreases s.len() - input.pos,
    {
        proof {
            lemma_account_advances(s, input.pos as int);
        }
        match read_account(input)? {
            None => {
                assert(done + seq![] =~= done);
                return Ok(tally);
            },
            Some(account) => {
                let ghost record = (account.id, account.tanks@);
                let split = split_account(&account);
                proof {
                    lemma_part_len(account.tanks@, account.tanks@.len(), 1);
                }
                let ghost total_before = tally.total;
                let mut k: usize = 0;
                while k < split.held_out.len()
                    invariant
                        k <= split.held_out@.len(),
                        split.held_out@.len() <= account.tanks@.len(),
                        total_before + account.tanks@.len() <= input.pos,
                        tally.total == total_before + k,
                        tally.hits <= tally.total,
                        split.wins <= 0xffff_ffff_ffff_ffff * 0xffff_ffff,
                        split.battles <= 0xffff_ffff_ffff_ffff * 0xffff_ffff,
                        forall|known: Vec<Rating>, item: u32, wins: u128, battles: u128|
                            call_requires(predicts_above, (&known, item, wins, battles)),
                    decreases split.held_out@.len() - k,
                {
                    let tank = split.held_out[k];
                    let truly_above = above(tank.wins, tank.battles, split.wins, split.battles);
                    let predicted_above = predicts_above(&split.known, tank.id, split.wins, split.battles);
                    tally.total = tally.total + 1;
                    if truly_above == predicted_above {
                        tally.hits = tally.hits + 1;
                    }
                    k = k + 1;
                }
                proof {
                    let rest = records_at(s, input.pos as int);
                    if let Ok(rest) = rest {
                        assert(done.push(record) + rest =~= done + (seq![record] + rest));
                    }
                    assert(done.push(record).drop_last() =~= done);
                    assert(split.held_out@.len() == held_out_of(account.tanks@).len());
                    done = done.push(record);
                }
            },
        }
    }
}

} // verus!
