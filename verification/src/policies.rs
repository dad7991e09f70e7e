//! Which CPU belongs to which frequency policy.
use std::collections::HashMap;
use crate::probe::{INVALID_POLICY, MAX_CPUS};
use crate::text::{
    chars_of, digits_of, is_at, is_digit, law_number_round_trip, lemma_digits,
    lemma_stands_at_skip, number, parse_u32, part, split_whitespace, stands_at, words,
};
use vstd::prelude::*;
use vstd::std_specs::hash::*;
use vstd::std_specs::iter::IteratorSpec;

verus! {

broadcast use vstd::std_specs::hash::group_hash_axioms;

/// The word that the directory of a policy is named by.
pub open spec fn policy_word() -> Seq<char> {
    seq!['p', 'o', 'l', 'i', 'c', 'y']
}

/// `name` without the word at its front, however often it stands there.
pub open spec fn without_policy(name: Seq<char>) -> Seq<char>
    decreases name.len(),
{
    if stands_at(name, policy_word(), 0) {
        without_policy(name.skip(6))
    } else {
        name
    }
}

/// The policy that the directory `name` is that of. One whose number cannot be read is
/// taken for policy zero.
pub open spec fn policy_named(name: Seq<char>) -> Option<u32> {
    if stands_at(name, policy_word(), 0) {
        match number(without_policy(name), u32::MAX as nat) {
            Some(n) => Some(n as u32),
            None => Some(0),
        }
    } else {
        None
    }
}

/// The policy that the directory `name` is that of.
pub fn policy_of_dir(name: &str) -> (policy: Option<u32>)
    ensures
        policy == policy_named(name@),
{
    let chars = chars_of(name);
    let word: Vec<char> = vec!['p', 'o', 'l', 'i', 'c', 'y'];
    assert(word@ =~= policy_word());
    if !is_at(&chars, &word, 0) {
        return None;
    }
    let mut at: usize = 0;
    assert(chars@.skip(0) =~= chars@);
    while is_at(&chars, &word, at)
        invariant
            word@ == policy_word(),
            at <= chars.len(),
            without_policy(chars@.skip(at as int)) == without_policy(chars@),
        decreases chars@.len() - at,
    {
        proof {
            lemma_stands_at_skip(chars@, policy_word(), at as int);
        }
        assert(chars@.skip(at as int).skip(6) =~= chars@.skip(at + 6));
        at = at + 6;
    }
    proof {
        lemma_stands_at_skip(chars@, policy_word(), at as int);
    }
    let rest = part(&chars, at, chars.len());
    assert(rest@ =~= chars@.skip(at as int));
    match parse_u32(&rest) {
        Some(n) => Some(n),
        None => Some(0),
    }
}

/// The CPUs of a policy, as its directory lists them.
pub struct PolicyDir {
    pub policy: u32,
    pub related_cpus: String,
}

/// `map` with the CPUs that `list` names put to `policy`.
pub open spec fn put(map: Map<u32, u32>, list: Seq<Seq<char>>, policy: u32) -> Map<u32, u32>
    decreases list.len(),
{
    if list.len() == 0 {
        map
    } else {
        let before = put(map, list.drop_last(), policy);
        match number(list.last(), u32::MAX as nat) {
            Some(cpu) => before.insert(cpu as u32, policy),
            None => before,
        }
    }
}

/// The policy of each CPU that `dirs` list.
pub open spec fn policy_map(dirs: Seq<PolicyDir>) -> Map<u32, u32>
    decreases dirs.len(),
{
    if dirs.len() == 0 {
        Map::empty()
    } else {
        put(policy_map(dirs.drop_last()), words(dirs.last().related_cpus@), dirs.last().policy)
    }
}

/// No CPU belongs to any policy.
#[derive(Debug, Copy, Clone, PartialEq, Eq, Structural)]
pub struct NoPolicies;

fn put_cpus(map: &mut HashMap<u32, u32>, dir: &PolicyDir)
    ensures
        final(map)@ == put(old(map)@, words(dir.related_cpus@), dir.policy),
{
    let fields = split_whitespace(&chars_of(dir.related_cpus.as_str()));
    let ghost all = words(dir.related_cpus@);
    for i in 0..fields.len()
        invariant
            all == words(dir.related_cpus@),
            fields@.len() == all.len(),
            forall|k: int| 0 <= k < fields@.len() ==> (#[trigger] fields@[k])@ == all[k],
            map@ == put(old(map)@, all.take(i as int), dir.policy),
    {
        assert(all.take(i + 1).drop_last() =~= all.take(i as int));
        assert(all.take(i + 1).last() == fields@[i as int]@);
        if let Some(cpu) = parse_u32(&fields[i]) {
            map.insert(cpu, dir.policy);
        }
    }
    assert(all.take(all.len() as int) =~= all);
}

/// The policy of each CPU.
pub fn load_cpu_policy_map(dirs: &Vec<PolicyDir>) -> (res: Result<HashMap<u32, u32>, NoPolicies>)
    ensures
        match res {
            Ok(map) => map@ == policy_map(dirs@) && map@ != Map::<u32, u32>::empty(),
            Err(_) => policy_map(dirs@) == Map::<u32, u32>::empty(),
        },
{
    let mut map: HashMap<u32, u32> = HashMap::new();
    for i in 0..dirs.len()
        invariant
            map@ == policy_map(dirs@.take(i as int)),
    {
        assert(dirs@.take(i + 1).drop_last() =~= dirs@.take(i as int));
        put_cpus(&mut map, &dirs[i]);
    }
    assert(dirs@.take(dirs@.len() as int) =~= dirs@);
    if map.is_empty() {
        assert(map@.dom() =~= Set::empty());
        assert(map@ =~= Map::empty());
        return Err(NoPolicies);
    }
    assert(map@ != Map::<u32, u32>::empty());
    Ok(map)
}

/// `list` is in strictly increasing order.
pub open spec fn increasing(list: Seq<u32>) -> bool {
    forall|i: int, j: int| 0 <= i < j < list.len() ==> list[i] < list[j]
}

/// Some CPU belongs to `policy`.
pub open spec fn in_use(cpu_policy: Map<u32, u32>, policy: u32) -> bool {
    exists|cpu: u32| #[trigger] cpu_policy.contains_key(cpu) && cpu_policy[cpu] == policy
}

/// Puts `policy` into its place in `list`, unless it is there.
fn insert_sorted(list: &mut Vec<u32>, policy: u32)
    requires
        increasing(old(list)@),
    ensures
        increasing(final(list)@),
        forall|p: u32| #[trigger]
            final(list)@.contains(p) <==> old(list)@.contains(p) || p == policy,
{
    let mut i: usize = 0;
    while i < list.len() && list[i] < policy
        invariant
            list@ == old(list)@,
            i <= list@.len(),
            forall|k: int| 0 <= k < i ==> list@[k] < policy,
        decreases list@.len() - i,
    {
        i = i + 1;
    }
    if i < list.len() && list[i] == policy {
        assert(list@.contains(policy));
        return;
    }
    list.insert(i, policy);
    proof {
        let was = old(list)@;
        assert forall|p: u32| #[trigger] list@.contains(p) <==> was.contains(p) || p == policy by {
            if was.contains(p) {
                let k = choose|k: int| 0 <= k < was.len() && was[k] == p;
                if k < i {
                    assert(list@[k] == p);
                } else {
                    assert(list@[k + 1] == p);
                }
            }
            if p == policy {
                assert(list@[i as int] == p);
            }
            if list@.contains(p) && p != policy {
                let k = choose|k: int| 0 <= k < list@.len() && list@[k] == p;
                if k < i {
                    assert(was[k] == p);
                } else {
                    assert(was[k - 1] == p);
                }
            }
        }
    }
}

/// The policies that some CPU belongs to, in increasing order.
pub fn sorted_policies(cpu_policy: &HashMap<u32, u32>) -> (list: Vec<u32>)
    ensures
        increasing(list@),
        forall|p: u32| #[trigger] list@.contains(p) <==> in_use(cpu_policy@, p),
{
    let mut list: Vec<u32> = Vec::new();
    let ghost walk = spec_hash_map_iter(cpu_policy).remaining();
    proof {
        axiom_spec_hash_map_iter(cpu_policy);
    }
    for (_cpu, policy) in it: cpu_policy.iter()
        invariant
            it.seq() == walk,
            increasing(list@),
            forall|p: u32| #[trigger]
                list@.contains(p) <==> exists|i: int|
                    0 <= i < it.index() && *(#[trigger] walk[i]).1 == p,
    {
        let ghost was = list@;
        insert_sorted(&mut list, *policy);
        proof {
            let n = it.index();
            assert forall|p: u32| #[trigger] list@.contains(p) <==> exists|i: int|
                0 <= i < n + 1 && *(#[trigger] walk[i]).1 == p by {
                if was.contains(p) {
                    let i = choose|i: int| 0 <= i < n && *(#[trigger] walk[i]).1 == p;
                    assert(*walk[i].1 == p);
                }
                if p == *policy {
                    assert(*walk[n as int].1 == p);
                }
            }
        }
    }
    proof {
        let map = cpu_policy@;
        assert forall|p: u32| #[trigger] list@.contains(p) <==> in_use(map, p) by {
            if list@.contains(p) {
                let i = choose|i: int| 0 <= i < walk.len() && *(#[trigger] walk[i]).1 == p;
                assert(map.contains_key(*walk[i].0) && map[*walk[i].0] == *walk[i].1);
            }
            if in_use(map, p) {
                let cpu = choose|cpu: u32| #[trigger] map.contains_key(cpu) && map[cpu] == p;
                let i = choose|i: int| 0 <= i < walk.len() && walk[i] == (&cpu, &map[cpu]);
                assert(0 <= i < walk.len() && walk[i] == (&cpu, &map[cpu]));
                assert(*walk[i].1 == p);
            }
        }
    }
    list
}

/// The policy of `cpu` in the table of the kernel side.
pub open spec fn table_entry(cpu_policy: Map<u32, u32>, cpu: u32) -> u32 {
    if cpu_policy.contains_key(cpu) {
        cpu_policy[cpu]
    } else {
        INVALID_POLICY
    }
}

/// The table of the kernel side: the policy of each CPU that it knows.
pub fn cpu_policy_table(cpu_policy: &HashMap<u32, u32>) -> (table: Vec<u32>)
    ensures
        table@.len() == MAX_CPUS,
        forall|cpu: u32|
            cpu < MAX_CPUS ==> #[trigger] table@[cpu as int] == table_entry(cpu_policy@, cpu),
{
    let mut table: Vec<u32> = Vec::new();
    for cpu in 0..MAX_CPUS
        invariant
            table@.len() == cpu,
            forall|k: u32|
                k < cpu ==> #[trigger] table@[k as int] == table_entry(cpu_policy@, k),
    {
        let policy = match cpu_policy.get(&cpu) {
            Some(p) => *p,
            None => INVALID_POLICY,
        };
        table.push(policy);
    }
    table
}

/// The CPUs of `policy`.
pub open spec fn cpus_of(cpu_policy: Map<u32, u32>, policy: u32) -> Set<u32> {
    Set::new(|cpu: u32| cpu_policy.contains_key(cpu) && cpu_policy[cpu] == policy)
}

/// Number of the CPUs of `policy`.
pub fn policy_cpu_count(cpu_policy: &HashMap<u32, u32>, policy: u32) -> (n: u32)
    ensures
        n == (if cpus_of(cpu_policy@, policy).len() < u32::MAX {
            cpus_of(cpu_policy@, policy).len() as int
        } else {
            u32::MAX as int
        }),
{
    let ghost walk = spec_hash_map_iter(cpu_policy).remaining();
    let ghost mut seen: Set<u32> = Set::empty();
    proof {
        axiom_spec_hash_map_iter(cpu_policy);
    }
    let mut n: u32 = 0;
    for (cpu, p) in it: cpu_policy.iter()
        invariant
            it.seq() == walk,
            walk.no_duplicates(),
            forall|i: int|
                0 <= i < walk.len() ==> cpu_policy@.contains_key(*(#[trigger] walk[i]).0)
                    && cpu_policy@[*walk[i].0] == *walk[i].1,
            seen.finite(),
            n == (if seen.len() < u32::MAX {
                seen.len() as int
            } else {
                u32::MAX as int
            }),
            forall|c: u32| #[trigger]
                seen.contains(c) <==> exists|i: int|
                    0 <= i < it.index() && *(#[trigger] walk[i]).0 == c && *walk[i].1 == policy,
    {
        let ghost at = it.index();
        let ghost before = seen;
        if *p == policy {
            proof {
                assert(!before.contains(*cpu)) by {
                    if before.contains(*cpu) {
                        let i = choose|i: int|
                            0 <= i < at && *(#[trigger] walk[i]).0 == *cpu && *walk[i].1 == policy;
                        assert(walk[i] == walk[at as int]);
                    }
                }
                seen = before.insert(*cpu);
            }
            n = n.saturating_add(1);
        }
        proof {
            assert forall|c: u32| #[trigger] seen.contains(c) <==> exists|i: int|
                0 <= i < at + 1 && *(#[trigger] walk[i]).0 == c && *walk[i].1 == policy by {
                if before.contains(c) {
                    let i = choose|i: int|
                        0 <= i < at && *(#[trigger] walk[i]).0 == c && *walk[i].1 == policy;
                    assert(*walk[i].0 == c);
                }
                if seen.contains(c) && !before.contains(c) {
                    assert(*walk[at as int].0 == c);
                }
            }
        }
    }
    proof {
        let map = cpu_policy@;
        assert forall|c: u32| seen.contains(c) <==> cpus_of(map, policy).contains(c) by {
            if seen.contains(c) {
                let i = choose|i: int|
                    0 <= i < walk.len() && *(#[trigger] walk[i]).0 == c && *walk[i].1 == policy;
                assert(map.contains_key(*walk[i].0));
            }
            if cpus_of(map, policy).contains(c) {
                let i = choose|i: int| 0 <= i < walk.len() && walk[i] == (&c, &map[c]);
                assert(0 <= i < walk.len() && walk[i] == (&c, &map[c]));
                assert(*walk[i].0 == c);
            }
        }
        assert(seen =~= cpus_of(map, policy));
    }
    n
}

/// The directory of a policy is named by the word and the number of the policy. Behind the
/// word, more of it changes nothing, and what is no number stands for zero. Any other name
/// is that of no policy.
pub proof fn law_policy_directories(n: u32, name: Seq<char>)
    ensures
        policy_named(seq!['p', 'o', 'l', 'i', 'c', 'y'] + digits_of(n as nat)) == Some(n),
        policy_named(
            seq!['p', 'o', 'l', 'i', 'c', 'y'] + (seq!['p', 'o', 'l', 'i', 'c', 'y'] + name),
        ) == policy_named(seq!['p', 'o', 'l', 'i', 'c', 'y'] + name),
        name.len() < 6 || name.take(6) != seq!['p', 'o', 'l', 'i', 'c', 'y'] ==> policy_named(name)
            is None && (number(name, u32::MAX as nat) is None ==> policy_named(
            seq!['p', 'o', 'l', 'i', 'c', 'y'] + name,
        ) == Some(0u32)),
{
    let word = seq!['p', 'o', 'l', 'i', 'c', 'y'];
    let digits = digits_of(n as nat);
    lemma_digits(n as nat);
    law_number_round_trip(n as nat, u32::MAX as nat);
    lemma_word_in_front(digits);
    lemma_word_in_front(name);
    lemma_word_in_front(word + name);
    assert(is_digit(digits[0]));
    if stands_at(digits, policy_word(), 0) {
        assert(digits.subrange(0, 6)[0] == digits[0]);
    }
    assert(without_policy(digits) == digits);
    if name.len() >= 6 {
        assert(name.take(6) =~= name.subrange(0, 6));
    }
}

proof fn lemma_word_in_front(name: Seq<char>)
    ensures
        stands_at(seq!['p', 'o', 'l', 'i', 'c', 'y'] + name, policy_word(), 0),
        without_policy(seq!['p', 'o', 'l', 'i', 'c', 'y'] + name) == without_policy(name),
{
    let longer = seq!['p', 'o', 'l', 'i', 'c', 'y'] + name;
    assert(longer.subrange(0, 6) =~= policy_word());
    assert(longer.skip(6) =~= name);
}

/// A CPU belongs to the policy of the last directory that lists it.
pub proof fn law_last_directory_counts(dirs: Seq<PolicyDir>, dir: PolicyDir, cpu: u32)
    ensures
        policy_map(Seq::empty()) == Map::<u32, u32>::empty(),
        ({
            let before = policy_map(dirs);
            let after = policy_map(dirs.push(dir));
            let list = words(dir.related_cpus@);
            if exists|i: int|
                0 <= i < list.len() && number(#[trigger] list[i], u32::MAX as nat) == Some(
                    cpu as nat,
                ) {
                after.contains_key(cpu) && after[cpu] == dir.policy
            } else {
                after.contains_key(cpu) == before.contains_key(cpu) && (before.contains_key(cpu)
                    ==> after[cpu] == before[cpu])
            }
        }),
{
    assert(dirs.push(dir).drop_last() =~= dirs);
    lemma_put(policy_map(dirs), words(dir.related_cpus@), dir.policy, cpu);
}

proof fn lemma_put(map: Map<u32, u32>, list: Seq<Seq<char>>, policy: u32, cpu: u32)
    ensures
        ({
            let after = put(map, list, policy);
            if exists|i: int|
                0 <= i < list.len() && number(#[trigger] list[i], u32::MAX as nat) == Some(
                    cpu as nat,
                ) {
                after.contains_key(cpu) && after[cpu] == policy
            } else {
                after.contains_key(cpu) == map.contains_key(cpu) && (map.contains_key(cpu)
                    ==> after[cpu] == map[cpu])
            }
        }),
    decreases list.len(),
{
    if list.len() > 0 {
        let front = list.drop_last();
        let last = list.len() - 1;
        lemma_put(map, front, policy, cpu);
        assert(list[last] == list.last());
        if exists|i: int|
            0 <= i < front.len() && number(#[trigger] front[i], u32::MAX as nat) == Some(
                cpu as nat,
            ) {
            let i = choose|i: int|
                0 <= i < front.len() && number(#[trigger] front[i], u32::MAX as nat) == Some(
                    cpu as nat,
                );
            assert(list[i] == front[i]);
        }
        if exists|i: int|
            0 <= i < list.len() && number(#[trigger] list[i], u32::MAX as nat) == Some(cpu as nat) {
            let i = choose|i: int|
                0 <= i < list.len() && number(#[trigger] list[i], u32::MAX as nat) == Some(
                    cpu as nat,
                );
            if i < last {
                assert(list[i] == front[i]);
            }
        }
    }
}

/// A policy is in use where a CPU belongs to it, and such a CPU is one of its own.
pub proof fn law_cpus_of_a_policy(cpu_policy: Map<u32, u32>, cpu: u32, policy: u32)
    ensures
        cpu_policy.contains_key(cpu) ==> in_use(cpu_policy, cpu_policy[cpu]) && cpus_of(
            cpu_policy,
            cpu_policy[cpu],
        ).contains(cpu) && table_entry(cpu_policy, cpu) == cpu_policy[cpu],
        !cpu_policy.contains_key(cpu) ==> !cpus_of(cpu_policy, policy).contains(cpu) && table_entry(
            cpu_policy,
            cpu,
        ) == u32::MAX,
        cpus_of(cpu_policy, policy).contains(cpu) ==> in_use(cpu_policy, policy) && cpu_policy[cpu]
            == policy,
{
}

} // verus!
