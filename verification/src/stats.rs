//! Statistics feed reader.
//!
//! The feed is a sequence of accounts. Each account is two header bytes, the
//! account id, the number of its tanks, and for each tank its id, battles and
//! wins, all as varints.

use vstd::prelude::*;
use crate::protobuf::{read_uvarint, uvarint_at, Cursor};

verus! {

/// Battles and wins of an account on one tank.
#[derive(Debug, Clone, Copy, PartialEq, Eq)]
pub struct Tank {
    pub id: u16,
    pub battles: u32,
    pub wins: u32,
}

impl Tank {
    /// Tells whether the tank gives a rating: it has the minimum number of
    /// battles, and no more wins than battles.
    pub fn is_rated(&self, min_battles: u32) -> (rated: bool)
        ensures
            rated == (self.battles >= min_battles && self.wins <= self.battles),
    {
        self.battles >= min_battles && self.wins <= self.battles
    }
}

/// An account with its tanks.
#[derive(Debug)]
pub struct Account {
    pub id: u32,
    pub tanks: Vec<Tank>,
}

/// The tank at the front of the bytes and the bytes after it. The id keeps
/// its low sixteen bits.
pub open spec fn tank_at(bytes: Seq<u8>) -> Option<(Tank, Seq<u8>)> {
    match uvarint_at(bytes) {
        Some((id, after_id)) => match uvarint_at(after_id) {
            Some((battles, after_battles)) => match uvarint_at(after_battles) {
                Some((wins, rest)) => Some((Tank { id: id as u16, battles, wins }, rest)),
                None => None,
            },
            None => None,
        },
        None => None,
    }
}

/// The first `count` tanks at the front of the bytes and the bytes after
/// them.
pub open spec fn tanks_at(bytes: Seq<u8>, count: nat) -> Option<(Seq<Tank>, Seq<u8>)>
    decreases count,
{
    if count == 0 {
        Some((Seq::empty(), bytes))
    } else {
        match tanks_at(bytes, (count - 1) as nat) {
            Some((tanks, after)) => match tank_at(after) {
                Some((tank, rest)) => Some((tanks.push(tank), rest)),
                None => None,
            },
            None => None,
        }
    }
}

/// The account at the front of the bytes, as its id and its tanks, and the
/// bytes after it. The two header bytes may hold anything.
pub open spec fn account_at(bytes: Seq<u8>) -> Option<(u32, Seq<Tank>, Seq<u8>)> {
    if bytes.len() < 2 {
        None
    } else {
        match uvarint_at(bytes.skip(2)) {
            Some((id, after_id)) => match uvarint_at(after_id) {
                Some((count, after_count)) => match tanks_at(after_count, count as nat) {
                    Some((tanks, rest)) => Some((id, tanks, rest)),
                    None => None,
                },
                None => None,
            },
            None => None,
        }
    }
}

/// Tanks that cannot be read up to some count cannot be read beyond it.
proof fn lemma_tanks_missing(bytes: Seq<u8>, short: nat, count: nat)
    requires
        short <= count,
        tanks_at(bytes, short) is None,
    ensures
        tanks_at(bytes, count) is None,
    decreases count,
{
    if short < count {
        lemma_tanks_missing(bytes, short, (count - 1) as nat);
    }
}

/// Reads one tank, unless the bytes end before it does.
fn read_tank(input: &mut Cursor) -> (tank: Option<Tank>)
    ensures
        match tank_at(old(input)@) {
            Some((expected, rest)) => tank == Some(expected) && final(input)@ == rest,
            None => tank == None::<Tank> && final(input)@.len() == 0,
        },
{
    let id = match read_uvarint(input) {
        Some(id) => id,
        None => {
            return None;
        },
    };
    let battles = match read_uvarint(input) {
        Some(battles) => battles,
        None => {
            return None;
        },
    };
    let wins = match read_uvarint(input) {
        Some(wins) => wins,
        None => {
            return None;
        },
    };
    Some(Tank { id: #[verifier::truncate] (id as u16), battles, wins })
}

/// Reads next account statistics.
///
/// Returns `None`, with all bytes read, if the bytes end before the account
/// does.
pub fn read_account(input: &mut Cursor) -> (account: Option<Account>)
    ensures
        match account_at(old(input)@) {
            Some((id, tanks, rest)) => account is Some && account.unwrap().id == id
                && account.unwrap().tanks@ == tanks && final(input)@ == rest,
            None => account is None && final(input)@.len() == 0,
        },
{
    if !skip_account_header(input) {
        return None;
    }
    let account_id = match read_uvarint(input) {
        Some(id) => id,
        None => {
            return None;
        },
    };
    let ghost after_id = input@;
    let tank_count = match read_uvarint(input) {
        Some(count) => count,
        None => {
            return None;
        },
    };
    let ghost start = input@;
    let mut tanks: Vec<Tank> = Vec::new();
    let mut index: u32 = 0;
    while index < tank_count
        invariant
            index <= tank_count,
            old(input)@.len() >= 2,
            uvarint_at(old(input)@.skip(2)) == Some((account_id, after_id)),
            uvarint_at(after_id) == Some((tank_count, start)),
            tanks_at(start, index as nat) == Some((tanks@, input@)),
        decreases tank_count - index,
    {
        let ghost before = input@;
        match read_tank(input) {
            Some(tank) => {
                tanks.push(tank);
            },
            None => {
                proof {
                    assert(tanks_at(start, index as nat) == Some((tanks@, before)));
                    assert(tank_at(before) is None);
                    assert(tanks_at(start, (index + 1) as nat) is None);
                    lemma_tanks_missing(start, (index + 1) as nat, tank_count as nat);
                }
                return None;
            },
        }
        index = index + 1;
    }
    Some(Account { id: account_id, tanks })
}

/// Skips account header.
///
/// Returns whether the two header bytes were there; if not, all bytes are
/// read.
pub fn skip_account_header(input: &mut Cursor) -> (skipped: bool)
    ensures
        skipped == (old(input)@.len() >= 2),
        skipped ==> final(input)@ == old(input)@.skip(2),
        !skipped ==> final(input)@.len() == 0,
{
    match input.read_byte() {
        None => false,
        Some(_) => match input.read_byte() {
            None => false,
            Some(_) => {
                proof {
                    assert(old(input)@.skip(1).skip(1) == old(input)@.skip(2));
                }
                true
            },
        },
    }
}

} // verus!
