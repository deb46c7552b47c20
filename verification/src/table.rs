//! Lists of pairs read as maps from a path to a digest: a later pair for a path
//! takes the place of an earlier one.
use crate::text::same_chars;
use vstd::prelude::*;

verus! {

/// The value of the last pair of `entries` whose key is `key`.
pub open spec fn last_value(entries: Seq<(Seq<char>, Seq<char>)>, key: Seq<char>) -> Option<
    Seq<char>,
>
    decreases entries.len(),
{
    if entries.len() == 0 {
        None
    } else if entries.last().0 == key {
        Some(entries.last().1)
    } else {
        last_value(entries.drop_last(), key)
    }
}

/// A key has a value exactly if some pair has that key.
pub proof fn lemma_last_value_some(entries: Seq<(Seq<char>, Seq<char>)>, key: Seq<char>)
    ensures
        last_value(entries, key) is Some <==> exists|i: int|
            0 <= i < entries.len() && (#[trigger] entries[i]).0 == key,
    decreases entries.len(),
{
    if entries.len() == 0 {
    } else if entries.last().0 == key {
        assert(entries[entries.len() - 1].0 == key);
    } else {
        let init = entries.drop_last();
        lemma_last_value_some(init, key);
        if last_value(init, key) is Some {
            let i = choose|i: int| 0 <= i < init.len() && (#[trigger] init[i]).0 == key;
            assert(entries[i].0 == key);
        }
        if exists|i: int| 0 <= i < entries.len() && (#[trigger] entries[i]).0 == key {
            let i = choose|i: int| 0 <= i < entries.len() && (#[trigger] entries[i]).0 == key;
            assert(init[i].0 == key);
        }
    }
}

/// The pairs that a table holds.
pub open spec fn pairs(table: Seq<(Vec<char>, Vec<char>)>) -> Seq<(Seq<char>, Seq<char>)> {
    Seq::new(table.len(), |i: int| (table[i].0@, table[i].1@))
}

/// The place of the last pair of `table` whose key is `key`.
pub fn lookup(table: &Vec<(Vec<char>, Vec<char>)>, key: &Vec<char>) -> (r: Option<usize>)
    ensures
        match r {
            Some(i) => i < table.len() && last_value(pairs(table@), key@) == Some(
                table@[i as int].1@,
            ),
            None => last_value(pairs(table@), key@) is None,
        },
{
    let mut i: usize = table.len();
    let ghost all = pairs(table@);
    assert(all.take(i as int) =~= all);
    while i > 0
        invariant
            i <= table.len(),
            all == pairs(table@),
            last_value(all, key@) == last_value(all.take(i as int), key@),
        decreases i,
    {
        let ghost part = all.take(i as int);
        assert(part.last() == all[i - 1]);
        assert(part.drop_last() =~= all.take(i - 1));
        if same_chars(&table[i - 1].0, key) {
            return Some(i - 1);
        }
        i -= 1;
    }
    None
}

} // verus!
