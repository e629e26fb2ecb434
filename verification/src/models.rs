//! The weight table a parser scores with: feature group -> n-gram -> weight.

use vstd::prelude::*;
use vstd::string::*;

verus! {

/// One n-gram together with its signed weight.
struct ModelEntry {
    ngram: String,
    weight: i64,
}

/// One feature group: its name together with the n-gram entries scored
/// under that group.
struct ModelGroup {
    name: String,
    entries: Vec<ModelEntry>,
}

/// A weight table: a mapping from feature-group name to a mapping from
/// n-gram to signed weight.  An absent entry weighs 0.
///
/// The sum of every weight in the table is kept alongside the entries, so
/// that deriving a parser's base score never walks the table again.
pub struct Model {
    groups: Vec<ModelGroup>,
    total: i64,
}

/// The weight of `ngram` in `entries`: the weight of the first entry whose
/// n-gram equals `ngram`, or 0 when there is none.
spec fn entry_weight(entries: Seq<ModelEntry>, ngram: Seq<char>) -> int
    decreases entries.len(),
{
    if entries.len() == 0 {
        0
    } else if entries[0].ngram@ == ngram {
        entries[0].weight as int
    } else {
        entry_weight(entries.skip(1), ngram)
    }
}

/// The sum of every weight in `entries`.
spec fn entries_sum(entries: Seq<ModelEntry>) -> int
    decreases entries.len(),
{
    if entries.len() == 0 {
        0
    } else {
        entries[0].weight + entries_sum(entries.skip(1))
    }
}

/// The weight of `ngram` under the feature group `group`: looked up in the
/// first group whose name equals `group`, or 0 when there is none.
spec fn groups_weight(groups: Seq<ModelGroup>, group: Seq<char>, ngram: Seq<char>) -> int
    decreases groups.len(),
{
    if groups.len() == 0 {
        0
    } else if groups[0].name@ == group {
        entry_weight(groups[0].entries@, ngram)
    } else {
        groups_weight(groups.skip(1), group, ngram)
    }
}

/// The sum of every weight in every group.
spec fn groups_sum(groups: Seq<ModelGroup>) -> int
    decreases groups.len(),
{
    if groups.len() == 0 {
        0
    } else {
        entries_sum(groups[0].entries@) + groups_sum(groups.skip(1))
    }
}

impl Model {
    /// The weight the table assigns to `ngram` under feature group `group`;
    /// 0 when either the group or the n-gram is absent.
    pub closed spec fn weight(self, group: Seq<char>, ngram: Seq<char>) -> int {
        groups_weight(self.groups@, group, ngram)
    }

    /// The sum of every weight in the table.
    pub closed spec fn total_of(self) -> int {
        self.total as int
    }

    /// The stored sum agrees with the entries.
    pub closed spec fn wf(self) -> bool {
        self.total as int == groups_sum(self.groups@)
    }

    /// An empty table: no groups, no weights.
    pub fn new() -> (m: Model)
        ensures
            m.wf(),
            m.total_of() == 0,
            forall|g: Seq<char>, n: Seq<char>| m.weight(g, n) == 0,
    {
        let m = Model { groups: Vec::new(), total: 0 };
        proof {
            assert(forall|g: Seq<char>, n: Seq<char>| m.weight(g, n) == 0) by {
                assert(m.groups@.len() == 0);
            }
        }
        m
    }

    /// Sets the weight of `ngram` under `group`, replacing any weight the
    /// pair already had.  The bound in the requires only keeps the running
    /// sum of weights inside the range of a signed 64-bit integer.
    pub fn insert(&mut self, group: &str, ngram: &str, weight: i64)
        requires
            old(self).wf(),
            i64::MIN <= old(self).total_of() - old(self).weight(group@, ngram@) + weight,
            old(self).total_of() - old(self).weight(group@, ngram@) + weight <= i64::MAX,
        ensures
            final(self).wf(),
            final(self).total_of() == old(self).total_of() - old(self).weight(group@, ngram@)
                + weight,
            forall|g: Seq<char>, n: Seq<char>|
                final(self).weight(g, n) == (if g == group@ && n == ngram@ {
                    weight as int
                } else {
                    old(self).weight(g, n)
                }),
    {
        let ghost groups0 = self.groups@;
        let group_key: String = String::from_str(group);
        let ngram_key: String = String::from_str(ngram);
        match find_group(&self.groups, &group_key) {
            Some(gi) => {
                let mut grp: ModelGroup = self.groups.remove(gi);
                let ghost entries0 = grp.entries@;
                match find_entry(&grp.entries, &ngram_key) {
                    Some(ei) => {
                        let old_w: i64 = grp.entries[ei].weight;
                        proof {
                            lemma_groups_weight_first_match(groups0, group@, ngram@, gi as int);
                            lemma_entry_weight_first_match(entries0, ngram@, ei as int);
                        }
                        let wide: i128 = (self.total as i128) - (old_w as i128)
                            + (weight as i128);
                        let new_total: i64 = wide as i64;
                        let mut ent: ModelEntry = grp.entries.remove(ei);
                        ent.weight = weight;
                        grp.entries.insert(ei, ent);
                        proof {
                            assert(grp.entries@ =~= entries0.update(ei as int, grp.entries@[ei as int]));
                        }
                        self.groups.insert(gi, grp);
                        self.total = new_total;
                        proof {
                            let grp1 = self.groups@[gi as int];
                            assert(self.groups@ =~= groups0.update(gi as int, grp1));
                            lemma_entries_sum_update(entries0, ei as int, grp1.entries@[ei as int]);
                            lemma_groups_sum_update(groups0, gi as int, grp1);
                            assert forall|g: Seq<char>, n: Seq<char>|
                                self.weight(g, n) == (if g == group@ && n == ngram@ {
                                    weight as int
                                } else {
                                    groups_weight(groups0, g, n)
                                }) by {
                                lemma_groups_weight_update(groups0, gi as int, grp1, g, n);
                                lemma_entry_weight_update(
                                    entries0,
                                    ei as int,
                                    grp1.entries@[ei as int],
                                    n,
                                );
                                if g == group@ && n != ngram@ {
                                    lemma_groups_weight_first_match(groups0, g, n, gi as int);
                                }
                            }
                        }
                    },
                    None => {
                        proof {
                            lemma_groups_weight_first_match(groups0, group@, ngram@, gi as int);
                            lemma_entry_weight_absent(entries0, ngram@);
                        }
                        let wide: i128 = (self.total as i128) + (weight as i128);
                        let new_total: i64 = wide as i64;
                        grp.entries.push(ModelEntry { ngram: ngram_key, weight });
                        self.groups.insert(gi, grp);
                        self.total = new_total;
                        proof {
                            let grp1 = self.groups@[gi as int];
                            let ent1 = grp1.entries@[entries0.len() as int];
                            assert(grp1.entries@ =~= entries0.push(ent1));
                            assert(self.groups@ =~= groups0.update(gi as int, grp1));
                            lemma_entries_sum_push(entries0, ent1);
                            lemma_groups_sum_update(groups0, gi as int, grp1);
                            assert forall|g: Seq<char>, n: Seq<char>|
                                self.weight(g, n) == (if g == group@ && n == ngram@ {
                                    weight as int
                                } else {
                                    groups_weight(groups0, g, n)
                                }) by {
                                lemma_groups_weight_update(groups0, gi as int, grp1, g, n);
                                lemma_entry_weight_push(entries0, ent1, n);
                                if g == group@ && n != ngram@ {
                                    lemma_groups_weight_first_match(groups0, g, n, gi as int);
                                }
                            }
                        }
                    },
                }
            },
            None => {
                proof {
                    lemma_groups_weight_absent(groups0, group@, ngram@);
                }
                let wide: i128 = (self.total as i128) + (weight as i128);
                let new_total: i64 = wide as i64;
                let mut entries: Vec<ModelEntry> = Vec::new();
                entries.push(ModelEntry { ngram: ngram_key, weight });
                self.groups.push(ModelGroup { name: group_key, entries });
                self.total = new_total;
                proof {
                    let grp1 = self.groups@[groups0.len() as int];
                    assert(self.groups@ =~= groups0.push(grp1));
                    assert(grp1.entries@ =~= Seq::empty().push(grp1.entries@[0]));
                    lemma_entries_sum_push(Seq::empty(), grp1.entries@[0]);
                    lemma_groups_sum_push(groups0, grp1);
                    assert forall|g: Seq<char>, n: Seq<char>|
                        self.weight(g, n) == (if g == group@ && n == ngram@ {
                            weight as int
                        } else {
                            groups_weight(groups0, g, n)
                        }) by {
                        lemma_groups_weight_push(groups0, grp1, g, n);
                        if g == group@ {
                            lemma_entry_weight_push(Seq::empty(), grp1.entries@[0], n);
                            if n != ngram@ {
                                lemma_groups_weight_absent(groups0, g, n);
                                lemma_entry_weight_absent(Seq::empty(), n);
                            }
                        }
                    }
                }
            },
        }
    }

    /// Looks up the weight of `value` under the feature group `key`,
    /// returning 0 when either is absent.
    pub fn get(&self, key: &str, value: &str) -> (w: i64)
        ensures
            w as int == self.weight(key@, value@),
    {
        let key_s: String = String::from_str(key);
        let value_s: String = String::from_str(value);
        match find_group(&self.groups, &key_s) {
            Some(gi) => {
                proof {
                    lemma_groups_weight_first_match(self.groups@, key@, value@, gi as int);
                }
                match find_entry(&self.groups[gi].entries, &value_s) {
                    Some(ei) => {
                        proof {
                            lemma_entry_weight_first_match(
                                self.groups@[gi as int].entries@,
                                value@,
                                ei as int,
                            );
                        }
                        self.groups[gi].entries[ei].weight
                    },
                    None => {
                        proof {
                            lemma_entry_weight_absent(self.groups@[gi as int].entries@, value@);
                        }
                        0
                    },
                }
            },
            None => {
                proof {
                    lemma_groups_weight_absent(self.groups@, key@, value@);
                }
                0
            },
        }
    }

    /// The stored sum of every weight in the table.
    pub(crate) fn weight_total(&self) -> (t: i64)
        ensures
            t as int == self.total_of(),
    {
        self.total
    }
}

/// The index of the first group named `name`, if any; no earlier group
/// carries that name.
fn find_group(groups: &Vec<ModelGroup>, name: &String) -> (r: Option<usize>)
    ensures
        match r {
            Some(i) => 0 <= i < groups@.len() && groups@[i as int].name@ == name@ && forall|j: int|
                0 <= j < i ==> groups@[j].name@ != name@,
            None => forall|j: int| 0 <= j < groups@.len() ==> groups@[j].name@ != name@,
        },
{
    let mut i: usize = 0;
    while i < groups.len()
        invariant
            i <= groups@.len(),
            forall|j: int| 0 <= j < i ==> groups@[j].name@ != name@,
        decreases groups@.len() - i,
    {
        if groups[i].name == *name {
            return Some(i);
        }
        i += 1;
    }
    None
}

/// The index of the first entry for `ngram`, if any; no earlier entry
/// carries that n-gram.
fn find_entry(entries: &Vec<ModelEntry>, ngram: &String) -> (r: Option<usize>)
    ensures
        match r {
            Some(i) => 0 <= i < entries@.len() && entries@[i as int].ngram@ == ngram@ && forall|
                j: int,
            | 0 <= j < i ==> entries@[j].ngram@ != ngram@,
            None => forall|j: int| 0 <= j < entries@.len() ==> entries@[j].ngram@ != ngram@,
        },
{
    let mut i: usize = 0;
    while i < entries.len()
        invariant
            i <= entries@.len(),
            forall|j: int| 0 <= j < i ==> entries@[j].ngram@ != ngram@,
        decreases entries@.len() - i,
    {
        if entries[i].ngram == *ngram {
            return Some(i);
        }
        i += 1;
    }
    None
}

proof fn lemma_entry_weight_first_match(entries: Seq<ModelEntry>, ngram: Seq<char>, i: int)
    requires
        0 <= i < entries.len(),
        entries[i].ngram@ == ngram,
        forall|j: int| 0 <= j < i ==> entries[j].ngram@ != ngram,
    ensures
        entry_weight(entries, ngram) == entries[i].weight as int,
    decreases i,
{
    if i > 0 {
        assert(entries.skip(1)[i - 1] == entries[i]);
        assert(forall|j: int| 0 <= j < i - 1 ==> entries.skip(1)[j] == entries[j + 1]);
        lemma_entry_weight_first_match(entries.skip(1), ngram, i - 1);
    }
}

proof fn lemma_entry_weight_absent(entries: Seq<ModelEntry>, ngram: Seq<char>)
    requires
        forall|j: int| 0 <= j < entries.len() ==> entries[j].ngram@ != ngram,
    ensures
        entry_weight(entries, ngram) == 0,
    decreases entries.len(),
{
    if entries.len() > 0 {
        assert(forall|j: int|
            0 <= j < entries.skip(1).len() ==> entries.skip(1)[j] == entries[j + 1]);
        lemma_entry_weight_absent(entries.skip(1), ngram);
    }
}

proof fn lemma_groups_weight_first_match(
    groups: Seq<ModelGroup>,
    group: Seq<char>,
    ngram: Seq<char>,
    i: int,
)
    requires
        0 <= i < groups.len(),
        groups[i].name@ == group,
        forall|j: int| 0 <= j < i ==> groups[j].name@ != group,
    ensures
        groups_weight(groups, group, ngram) == entry_weight(groups[i].entries@, ngram),
    decreases i,
{
    if i > 0 {
        assert(groups.skip(1)[i - 1] == groups[i]);
        assert(forall|j: int| 0 <= j < i - 1 ==> groups.skip(1)[j] == groups[j + 1]);
        lemma_groups_weight_first_match(groups.skip(1), group, ngram, i - 1);
    }
}

proof fn lemma_groups_weight_absent(groups: Seq<ModelGroup>, group: Seq<char>, ngram: Seq<char>)
    requires
        forall|j: int| 0 <= j < groups.len() ==> groups[j].name@ != group,
    ensures
        groups_weight(groups, group, ngram) == 0,
    decreases groups.len(),
{
    if groups.len() > 0 {
        assert(forall|j: int| 0 <= j < groups.skip(1).len() ==> groups.skip(1)[j] == groups[j + 1]);
        lemma_groups_weight_absent(groups.skip(1), group, ngram);
    }
}

proof fn lemma_entries_sum_update(entries: Seq<ModelEntry>, i: int, e: ModelEntry)
    requires
        0 <= i < entries.len(),
    ensures
        entries_sum(entries.update(i, e)) == entries_sum(entries) - entries[i].weight + e.weight,
    decreases i,
{
    let updated = entries.update(i, e);
    if i == 0 {
        assert(updated.skip(1) =~= entries.skip(1));
    } else {
        assert(updated.skip(1) =~= entries.skip(1).update(i - 1, e));
        lemma_entries_sum_update(entries.skip(1), i - 1, e);
    }
}

proof fn lemma_entries_sum_push(entries: Seq<ModelEntry>, e: ModelEntry)
    ensures
        entries_sum(entries.push(e)) == entries_sum(entries) + e.weight,
    decreases entries.len(),
{
    reveal_with_fuel(entries_sum, 2);
    reveal_with_fuel(entry_weight, 2);
    let pushed = entries.push(e);
    assert(pushed.len() == entries.len() + 1);
    if entries.len() == 0 {
        assert(pushed[0] == e);
        assert(pushed.skip(1) =~= Seq::<ModelEntry>::empty());
    } else {
        assert(pushed[0] == entries[0]);
        assert(pushed.skip(1) =~= entries.skip(1).push(e));
        lemma_entries_sum_push(entries.skip(1), e);
    }
}

proof fn lemma_entry_weight_update(entries: Seq<ModelEntry>, i: int, e: ModelEntry, n: Seq<char>)
    requires
        0 <= i < entries.len(),
        e.ngram@ == entries[i].ngram@,
        forall|j: int| 0 <= j < i ==> entries[j].ngram@ != entries[i].ngram@,
    ensures
        entry_weight(entries.update(i, e), n) == (if n == entries[i].ngram@ {
            e.weight as int
        } else {
            entry_weight(entries, n)
        }),
    decreases i,
{
    let updated = entries.update(i, e);
    if i == 0 {
        assert(updated.skip(1) =~= entries.skip(1));
    } else {
        assert(updated.skip(1) =~= entries.skip(1).update(i - 1, e));
        assert(forall|j: int|
            0 <= j < entries.skip(1).len() ==> entries.skip(1)[j] == entries[j + 1]);
        lemma_entry_weight_update(entries.skip(1), i - 1, e, n);
    }
}

proof fn lemma_entry_weight_push(entries: Seq<ModelEntry>, e: ModelEntry, n: Seq<char>)
    ensures
        n != e.ngram@ ==> entry_weight(entries.push(e), n) == entry_weight(entries, n),
        (n == e.ngram@ && (forall|j: int| 0 <= j < entries.len() ==> entries[j].ngram@ != n))
            ==> entry_weight(entries.push(e), n) == e.weight as int,
    decreases entries.len(),
{
    reveal_with_fuel(entries_sum, 2);
    reveal_with_fuel(entry_weight, 2);
    let pushed = entries.push(e);
    assert(pushed.len() == entries.len() + 1);
    if entries.len() == 0 {
        assert(pushed[0] == e);
        assert(pushed.skip(1) =~= Seq::<ModelEntry>::empty());
    } else {
        assert(pushed[0] == entries[0]);
        assert(pushed.skip(1) =~= entries.skip(1).push(e));
        assert(forall|j: int|
            0 <= j < entries.skip(1).len() ==> entries.skip(1)[j] == entries[j + 1]);
        lemma_entry_weight_push(entries.skip(1), e, n);
    }
}

proof fn lemma_groups_sum_update(groups: Seq<ModelGroup>, i: int, g: ModelGroup)
    requires
        0 <= i < groups.len(),
    ensures
        groups_sum(groups.update(i, g)) == groups_sum(groups) - entries_sum(groups[i].entries@)
            + entries_sum(g.entries@),
    decreases i,
{
    let updated = groups.update(i, g);
    if i == 0 {
        assert(updated.skip(1) =~= groups.skip(1));
    } else {
        assert(updated.skip(1) =~= groups.skip(1).update(i - 1, g));
        lemma_groups_sum_update(groups.skip(1), i - 1, g);
    }
}

proof fn lemma_groups_sum_push(groups: Seq<ModelGroup>, g: ModelGroup)
    ensures
        groups_sum(groups.push(g)) == groups_sum(groups) + entries_sum(g.entries@),
    decreases groups.len(),
{
    reveal_with_fuel(groups_sum, 2);
    let pushed = groups.push(g);
    assert(pushed.len() == groups.len() + 1);
    if groups.len() == 0 {
        assert(pushed[0] == g);
        assert(pushed.skip(1) =~= Seq::<ModelGroup>::empty());
    } else {
        assert(pushed[0] == groups[0]);
        assert(pushed.skip(1) =~= groups.skip(1).push(g));
        lemma_groups_sum_push(groups.skip(1), g);
    }
}

proof fn lemma_groups_weight_update(
    groups: Seq<ModelGroup>,
    i: int,
    g2: ModelGroup,
    g: Seq<char>,
    n: Seq<char>,
)
    requires
        0 <= i < groups.len(),
        g2.name@ == groups[i].name@,
        forall|j: int| 0 <= j < i ==> groups[j].name@ != groups[i].name@,
    ensures
        groups_weight(groups.update(i, g2), g, n) == (if g == groups[i].name@ {
            entry_weight(g2.entries@, n)
        } else {
            groups_weight(groups, g, n)
        }),
    decreases i,
{
    let updated = groups.update(i, g2);
    if i == 0 {
        assert(updated.skip(1) =~= groups.skip(1));
    } else {
        assert(updated.skip(1) =~= groups.skip(1).update(i - 1, g2));
        assert(forall|j: int| 0 <= j < groups.skip(1).len() ==> groups.skip(1)[j] == groups[j + 1]);
        lemma_groups_weight_update(groups.skip(1), i - 1, g2, g, n);
    }
}

proof fn lemma_groups_weight_push(groups: Seq<ModelGroup>, g2: ModelGroup, g: Seq<char>, n: Seq<char>)
    ensures
        g != g2.name@ ==> groups_weight(groups.push(g2), g, n) == groups_weight(groups, g, n),
        (g == g2.name@ && (forall|j: int| 0 <= j < groups.len() ==> groups[j].name@ != g))
            ==> groups_weight(groups.push(g2), g, n) == entry_weight(g2.entries@, n),
    decreases groups.len(),
{
    reveal_with_fuel(groups_weight, 2);
    let pushed = groups.push(g2);
    assert(pushed.len() == groups.len() + 1);
    if groups.len() == 0 {
        assert(pushed[0] == g2);
        assert(pushed.skip(1) =~= Seq::<ModelGroup>::empty());
    } else {
        assert(pushed[0] == groups[0]);
        assert(pushed.skip(1) =~= groups.skip(1).push(g2));
        assert(forall|j: int| 0 <= j < groups.skip(1).len() ==> groups.skip(1)[j] == groups[j + 1]);
        lemma_groups_weight_push(groups.skip(1), g2, g, n);
    }
}

} // verus!
