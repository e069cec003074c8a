use crate::error::CqError;
use crate::field::{key_value, lemma_key_injective, values, Scalar};
use std::collections::BTreeMap;
use vstd::prelude::*;

verus! {

/// The last position at which the table holds `v`, or -1 where it holds it
/// nowhere.
pub open spec fn last_index_of(table: Seq<nat>, v: nat) -> int
    decreases table.len(),
{
    if table.len() == 0 {
        -1
    } else if table.last() == v {
        table.len() - 1
    } else {
        last_index_of(table.drop_last(), v)
    }
}

/// Every entry of the input occurs in the table.
pub open spec fn all_in_table(table: Seq<nat>, input: Seq<nat>) -> bool {
    forall|j: int| 0 <= j < input.len() ==> last_index_of(table, #[trigger] input[j]) >= 0
}

/// How many entries of the input the table position `i` stands for: those
/// whose value the table holds at `i` and at no later position.
pub open spec fn count_matches(table: Seq<nat>, input: Seq<nat>, i: int) -> nat
    decreases input.len(),
{
    if input.len() == 0 {
        0
    } else {
        count_matches(table, input.drop_last(), i) + if last_index_of(table, input.last()) == i {
            1nat
        } else {
            0nat
        }
    }
}

/// The multiplicity map: each table position that stands for an entry of the
/// input, with the number of entries it stands for.
pub open spec fn multiplicities(table: Seq<nat>, input: Seq<nat>) -> Map<usize, u64> {
    Map::new(
        |i: usize| i < table.len() && count_matches(table, input, i as int) > 0,
        |i: usize| count_matches(table, input, i as int) as u64,
    )
}

/// Where `last_index_of` points, the table holds the value; and it points
/// somewhere as soon as the table holds the value anywhere.
pub proof fn lemma_last_index_of(table: Seq<nat>, v: nat)
    ensures
        -1 <= last_index_of(table, v) < table.len(),
        last_index_of(table, v) >= 0 ==> table[last_index_of(table, v)] == v,
        forall|i: int| 0 <= i < table.len() && table[i] == v ==> last_index_of(table, v) >= i,
    decreases table.len(),
{
    if table.len() > 0 && table.last() != v {
        lemma_last_index_of(table.drop_last(), v);
        assert forall|i: int| 0 <= i < table.len() && table[i] == v implies last_index_of(
            table,
            v,
        ) >= i by {
            assert(table.drop_last()[i] == table[i]);
        }
    }
}

/// No position stands for more entries than the input has.
pub proof fn lemma_count_bound(table: Seq<nat>, input: Seq<nat>, i: int)
    ensures
        count_matches(table, input, i) <= input.len(),
    decreases input.len(),
{
    if input.len() > 0 {
        lemma_count_bound(table, input.drop_last(), i);
    }
}

/// A position that counts an entry holds the value of an entry.
pub proof fn lemma_counted_is_matched(table: Seq<nat>, input: Seq<nat>, i: int)
    requires
        count_matches(table, input, i) > 0,
    ensures
        exists|j: int| 0 <= j < input.len() && last_index_of(table, #[trigger] input[j]) == i,
    decreases input.len(),
{
    if last_index_of(table, input.last()) == i {
        assert(last_index_of(table, input[input.len() - 1]) == i);
    } else {
        lemma_counted_is_matched(table, input.drop_last(), i);
        let j = choose|j: int|
            0 <= j < input.drop_last().len() && last_index_of(
                table,
                #[trigger] input.drop_last()[j],
            ) == i;
        assert(input[j] == input.drop_last()[j]);
    }
}

/// The sum of the counts of the first `k` table positions.
pub open spec fn count_sum(table: Seq<nat>, input: Seq<nat>, k: nat) -> nat
    decreases k,
{
    if k == 0 {
        0
    } else {
        count_sum(table, input, (k - 1) as nat) + count_matches(table, input, k - 1)
    }
}

/// The counts sum up to the number of entries that the first `k` table
/// positions stand for; an entry that the table holds is counted once.
pub proof fn lemma_count_sum_step(table: Seq<nat>, input: Seq<nat>, k: nat)
    requires
        input.len() > 0,
        k <= table.len(),
    ensures
        count_sum(table, input, k) == count_sum(table, input.drop_last(), k) + if 0
            <= last_index_of(table, input.last()) < k {
            1nat
        } else {
            0nat
        },
    decreases k,
{
    if k > 0 {
        lemma_count_sum_step(table, input, (k - 1) as nat);
    }
}

/// The counts of all table positions add up to the number of entries of an
/// input whose every entry the table holds.
pub proof fn lemma_counts_sum_to_len(table: Seq<nat>, input: Seq<nat>)
    requires
        all_in_table(table, input),
    ensures
        count_sum(table, input, table.len()) == input.len(),
    decreases input.len(),
{
    if input.len() == 0 {
        lemma_count_sum_empty(table, input, table.len());
    } else {
        let rest = input.drop_last();
        assert forall|j: int| 0 <= j < rest.len() implies last_index_of(
            table,
            #[trigger] rest[j],
        ) >= 0 by {
            assert(rest[j] == input[j]);
        }
        lemma_counts_sum_to_len(table, rest);
        lemma_count_sum_step(table, input, table.len());
        assert(input.last() == input[input.len() - 1]);
        lemma_last_index_of(table, input.last());
    }
}

/// No position counts an entry of an empty input.
pub proof fn lemma_count_sum_empty(table: Seq<nat>, input: Seq<nat>, k: nat)
    requires
        input.len() == 0,
    ensures
        count_sum(table, input, k) == 0,
    decreases k,
{
    if k > 0 {
        lemma_count_sum_empty(table, input, (k - 1) as nat);
    }
}

/// The map from each value of the table to the last position that holds it.
fn table_positions(table: &Vec<Scalar>) -> (r: BTreeMap<(u64, u64, u64, u64), usize>)
    ensures
        forall|k: (u64, u64, u64, u64)| #[trigger]
            r@.contains_key(k) <==> last_index_of(values(table@), key_value(k)) >= 0,
        forall|k: (u64, u64, u64, u64)| #[trigger]
            r@.contains_key(k) ==> r@[k] == last_index_of(values(table@), key_value(k)),
{
    let ghost tv = values(table@);
    let mut r: BTreeMap<(u64, u64, u64, u64), usize> = BTreeMap::new();
    let mut i: usize = 0;
    while i < table.len()
        invariant
            i <= table.len(),
            tv == values(table@),
            forall|k: (u64, u64, u64, u64)| #[trigger]
                r@.contains_key(k) <==> last_index_of(tv.take(i as int), key_value(k)) >= 0,
            forall|k: (u64, u64, u64, u64)| #[trigger]
                r@.contains_key(k) ==> r@[k] == last_index_of(tv.take(i as int), key_value(k)),
        decreases table.len() - i,
    {
        let key = table[i].key();
        let ghost before = r@;
        r.insert(key, i);
        proof {
            let next = tv.take(i + 1);
            assert(next.drop_last() =~= tv.take(i as int));
            assert(next.last() == key_value(key));
            assert forall|k: (u64, u64, u64, u64)| #[trigger]
                r@.contains_key(k) <==> last_index_of(next, key_value(k)) >= 0 by {
                if key_value(k) == key_value(key) {
                    lemma_key_injective(k, key);
                } else {
                    assert(before.contains_key(k) <==> last_index_of(
                        tv.take(i as int),
                        key_value(k),
                    ) >= 0);
                }
            }
            assert forall|k: (u64, u64, u64, u64)| #[trigger] r@.contains_key(k) implies r@[k]
                == last_index_of(next, key_value(k)) by {
                if key_value(k) == key_value(key) {
                    lemma_key_injective(k, key);
                } else {
                    assert(before.contains_key(k));
                }
            }
        }
        i += 1;
    }
    proof {
        assert(tv.take(i as int) =~= tv);
    }
    r
}

/// The multiplicity map of the input against the table, or
/// `ValueNotInTable` where the table lacks an entry of the input.
pub fn multiplicity_map(table: &Vec<Scalar>, input: &Vec<Scalar>) -> (r: Result<
    BTreeMap<usize, u64>,
    CqError,
>)
    ensures
        !all_in_table(values(table@), values(input@)) <==> r == Err::<
            BTreeMap<usize, u64>,
            CqError,
        >(CqError::ValueNotInTable),
        all_in_table(values(table@), values(input@)) ==> r is Ok,
        r matches Ok(m) ==> m@ == multiplicities(values(table@), values(input@)),
{
    let ghost tv = values(table@);
    let ghost iv = values(input@);
    let positions = table_positions(table);
    let mut m_map: BTreeMap<usize, u64> = BTreeMap::new();
    let mut j: usize = 0;
    while j < input.len()
        invariant
            j <= input.len(),
            tv == values(table@),
            iv == values(input@),
            forall|k: (u64, u64, u64, u64)| #[trigger]
                positions@.contains_key(k) <==> last_index_of(tv, key_value(k)) >= 0,
            forall|k: (u64, u64, u64, u64)| #[trigger]
                positions@.contains_key(k) ==> positions@[k] == last_index_of(tv, key_value(k)),
            all_in_table(tv, iv.take(j as int)),
            m_map@ =~= multiplicities(tv, iv.take(j as int)),
        decreases input.len() - j,
    {
        let key = input[j].key();
        let ghost next = iv.take(j + 1);
        proof {
            assert(next.drop_last() =~= iv.take(j as int));
            assert(next.last() == key_value(key));
            assert(iv[j as int] == key_value(key));
            lemma_last_index_of(tv, key_value(key));
        }
        match positions.get(&key) {
            None => {
                proof {
                    assert(!positions@.contains_key(key));
                    assert(last_index_of(tv, iv[j as int]) < 0);
                }
                return Err(CqError::ValueNotInTable);
            },
            Some(position) => {
                let i: usize = *position;
                proof {
                    assert(positions@.contains_key(key));
                    assert(i == last_index_of(tv, key_value(key)));
                    lemma_count_bound(tv, iv.take(j as int), i as int);
                }
                let count: u64 = match m_map.get(&i) {
                    Some(c) => *c,
                    None => 0,
                };
                let ghost before = m_map@;
                m_map.insert(i, count + 1);
                proof {
                    assert forall|x: int| 0 <= x < next.len() implies last_index_of(
                        tv,
                        #[trigger] next[x],
                    ) >= 0 by {
                        if x < j {
                            assert(next[x] == iv.take(j as int)[x]);
                        }
                    }
                    assert(m_map@ =~= multiplicities(tv, next));
                }
            },
        }
        j += 1;
    }
    proof {
        assert(iv.take(j as int) =~= iv);
    }
    Ok(m_map)
}

} // verus!
