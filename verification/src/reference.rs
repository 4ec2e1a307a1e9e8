//! The reference set: the addresses of the basic blocks that count as
//! valid.

use std::collections::HashSet;
use vstd::prelude::*;
use crate::lines::{split_first_line, split_lines};
use crate::number::{parse_hex, parse_usize};

verus! {

broadcast use vstd::std_specs::hash::group_hash_axioms;

/// A set of program-counter addresses. Once built it is only read.
pub struct ReferenceSet {
    addresses: HashSet<usize>,
}

impl View for ReferenceSet {
    type V = Set<usize>;

    closed spec fn view(&self) -> Set<usize> {
        self.addresses@
    }
}

/// The addresses that the lines of a file give: each line that is a number
/// in base sixteen gives one, every other line gives none.
pub open spec fn addresses_of(lines: Seq<Seq<u8>>) -> Set<usize> {
    Set::new(
        |a: usize|
            exists|i: int| 0 <= i < lines.len() && parse_usize(#[trigger] lines[i], 16) == Some(a),
    )
}

/// One more line adds its address, or nothing where it holds none.
pub proof fn lemma_addresses_of_push(lines: Seq<Seq<u8>>, line: Seq<u8>)
    ensures
        addresses_of(lines.push(line)) == match parse_usize(line, 16) {
            Some(a) => addresses_of(lines).insert(a),
            None => addresses_of(lines),
        },
{
    let more = lines.push(line);
    let expected = match parse_usize(line, 16) {
        Some(a) => addresses_of(lines).insert(a),
        None => addresses_of(lines),
    };
    assert forall|a: usize| addresses_of(more).contains(a) implies expected.contains(a) by {
        let i = choose|i: int| 0 <= i < more.len() && parse_usize(#[trigger] more[i], 16) == Some(a);
        if i < lines.len() {
            assert(more[i] == lines[i]);
        }
    }
    assert forall|a: usize| expected.contains(a) implies addresses_of(more).contains(a) by {
        if parse_usize(line, 16) == Some(a) {
            assert(more[lines.len() as int] == line);
        } else {
            let i = choose|i: int|
                0 <= i < lines.len() && parse_usize(#[trigger] lines[i], 16) == Some(a);
            assert(more[i] == lines[i]);
        }
    }
    assert(addresses_of(more) =~= expected);
}

impl ReferenceSet {
    /// The empty set.
    pub fn new() -> (r: ReferenceSet)
        ensures
            r@ == Set::<usize>::empty(),
    {
        ReferenceSet { addresses: HashSet::new() }
    }

    /// Adds one address; one that is in the set already changes nothing.
    pub fn insert(&mut self, address: usize)
        ensures
            final(self)@ == old(self)@.insert(address),
    {
        self.addresses.insert(address);
    }

    /// Whether `address` is in the set.
    pub fn contains(&self, address: usize) -> (r: bool)
        ensures
            r == self@.contains(address),
    {
        self.addresses.contains(&address)
    }

    /// The set of the given addresses.
    pub fn from_addresses(addresses: &[usize]) -> (r: ReferenceSet)
        ensures
            r@ == addresses@.to_set(),
    {
        let mut set = ReferenceSet::new();
        let mut i: usize = 0;
        while i < addresses.len()
            invariant
                i <= addresses.len(),
                set@ == addresses@.subrange(0, i as int).to_set(),
            decreases addresses.len() - i,
        {
            set.insert(addresses[i]);
            proof {
                let before = addresses@.subrange(0, i as int);
                let through = addresses@.subrange(0, i + 1);
                assert(through =~= before.push(addresses@[i as int]));
                assert forall|a: usize| through.to_set().contains(a) <==> before.to_set().insert(
                    addresses@[i as int],
                ).contains(a) by {
                    if through.contains(a) {
                        let j = choose|j: int| 0 <= j < through.len() && through[j] == a;
                        if j < i {
                            assert(before[j] == a);
                        }
                    }
                    if before.contains(a) {
                        let j = choose|j: int| 0 <= j < before.len() && before[j] == a;
                        assert(through[j] == a);
                    }
                    assert(through[i as int] == addresses@[i as int]);
                }
                assert(through.to_set() =~= before.to_set().insert(addresses@[i as int]));
            }
            i += 1;
        }
        assert(addresses@.subrange(0, i as int) =~= addresses@);
        set
    }

    /// Reads the set from the text of a file that holds one address in
    /// base sixteen on each line. A line that is no such number is passed
    /// over.
    pub fn load(text: &[u8]) -> (r: ReferenceSet)
        ensures
            r@ == addresses_of(split_lines(text@)),
    {
        let mut set = ReferenceSet::new();
        let mut rest: &[u8] = text;
        let ghost mut done: Seq<Seq<u8>> = Seq::empty();
        assert(addresses_of(done) =~= Set::<usize>::empty());
        while rest.len() > 0
            invariant
                split_lines(text@) == done + split_lines(rest@),
                set@ == addresses_of(done),
            decreases rest@.len(),
        {
            let (line, tail) = split_first_line(rest);
            proof {
                lemma_addresses_of_push(done, line@);
                assert(done + (seq![line@] + split_lines(tail@)) =~= done.push(line@)
                    + split_lines(tail@));
                done = done.push(line@);
            }
            match parse_hex(line) {
                Some(address) => {
                    set.insert(address);
                },
                None => {},
            }
            rest = tail;
        }
        assert(done + split_lines(rest@) =~= done);
        set
    }

    /// The number of addresses in the set.
    pub fn len(&self) -> (n: usize)
        ensures
            n == self@.len(),
    {
        self.addresses.len()
    }
}

} // verus!
