//! Matches of hosts with blocks, grouped by block in the order of first match.

use crate::network::CidrBlock;
use crate::text::text_views;
use vstd::prelude::*;

verus! {

/// The hostnames that matched one block, in the order the hosts were processed.
#[derive(Clone, Debug)]
pub struct SubnetGroup {
    pub subnet: CidrBlock,
    pub hostnames: Vec<String>,
}

/// A `SubnetGroup` as a mathematical value.
pub struct SubnetGroupView {
    pub subnet: CidrBlock,
    pub hostnames: Seq<Seq<char>>,
}

impl View for SubnetGroup {
    type V = SubnetGroupView;

    open spec fn view(&self) -> SubnetGroupView {
        SubnetGroupView { subnet: self.subnet, hostnames: text_views(self.hostnames@) }
    }
}

/// The views of a list of groups.
pub open spec fn group_views(groups: Seq<SubnetGroup>) -> Seq<SubnetGroupView> {
    groups.map_values(|g: SubnetGroup| g@)
}

/// One finding of classification: the host of this name lies in this block.
pub struct Match {
    pub hostname: Seq<char>,
    pub subnet: CidrBlock,
}

/// The blocks of a log of matches, one for each match.
pub open spec fn subnets_of(log: Seq<Match>) -> Seq<CidrBlock> {
    log.map_values(|m: Match| m.subnet)
}

/// The distinct blocks of `blocks`, each at the place of its first occurrence.
pub open spec fn first_seen(blocks: Seq<CidrBlock>) -> Seq<CidrBlock>
    decreases blocks.len(),
{
    if blocks.len() == 0 {
        Seq::<CidrBlock>::empty()
    } else {
        let before = first_seen(blocks.drop_last());
        if before.contains(blocks.last()) {
            before
        } else {
            before.push(blocks.last())
        }
    }
}

/// The hostnames that a log of matches holds for one block, in the log's order.
pub open spec fn hostnames_in(log: Seq<Match>, subnet: CidrBlock) -> Seq<Seq<char>> {
    log.filter(|m: Match| m.subnet == subnet).map_values(|m: Match| m.hostname)
}

/// The matches grouped by block: one group for each block that occurs in the
/// log, in the order of first occurrence, each with its hostnames in the
/// log's order.
pub open spec fn groups_of(log: Seq<Match>) -> Seq<SubnetGroupView> {
    let keys = first_seen(subnets_of(log));
    Seq::new(
        keys.len(),
        |i: int| SubnetGroupView { subnet: keys[i], hostnames: hostnames_in(log, keys[i]) },
    )
}

/// No two groups are for the same block.
pub open spec fn distinct_subnets(groups: Seq<SubnetGroupView>) -> bool {
    forall|i: int, j: int|
        0 <= i < j < groups.len() ==> (#[trigger] groups[i]).subnet != (#[trigger] groups[j]).subnet
}

/// `groups` has a group for `subnet`.
pub open spec fn has_group(groups: Seq<SubnetGroupView>, subnet: CidrBlock) -> bool {
    exists|i: int| 0 <= i < groups.len() && (#[trigger] groups[i]).subnet == subnet
}

/// The groups after one more match: its hostname goes to the end of the
/// block's group, or into a new last group if the block has none yet.
pub open spec fn with_match(groups: Seq<SubnetGroupView>, m: Match) -> Seq<SubnetGroupView> {
    if has_group(groups, m.subnet) {
        let i = choose|i: int| 0 <= i < groups.len() && (#[trigger] groups[i]).subnet == m.subnet;
        groups.update(
            i,
            SubnetGroupView { subnet: m.subnet, hostnames: groups[i].hostnames.push(m.hostname) },
        )
    } else {
        groups.push(SubnetGroupView { subnet: m.subnet, hostnames: seq![m.hostname] })
    }
}

/// An empty log has no groups.
pub proof fn lemma_no_match_no_group()
    ensures
        groups_of(Seq::<Match>::empty()) == Seq::<SubnetGroupView>::empty(),
{
    assert(subnets_of(Seq::<Match>::empty()) =~= Seq::<CidrBlock>::empty());
    assert(groups_of(Seq::<Match>::empty()) =~= Seq::<SubnetGroupView>::empty());
}

/// `first_seen` keeps exactly the blocks that occur.
pub proof fn lemma_first_seen_contains(blocks: Seq<CidrBlock>, b: CidrBlock)
    ensures
        first_seen(blocks).contains(b) <==> blocks.contains(b),
    decreases blocks.len(),
{
    if blocks.len() > 0 {
        let rest = blocks.drop_last();
        let last = blocks.last();
        lemma_first_seen_contains(rest, b);
        lemma_first_seen_contains(rest, last);
        let before = first_seen(rest);
        let now = first_seen(blocks);
        if now.contains(b) {
            let i = choose|i: int| 0 <= i < now.len() && now[i] == b;
            if i < before.len() {
                assert(before[i] == b);
                let k = choose|k: int| 0 <= k < rest.len() && rest[k] == b;
                assert(blocks[k] == b);
            } else {
                assert(blocks[blocks.len() - 1] == b);
            }
        }
        if blocks.contains(b) {
            let k = choose|k: int| 0 <= k < blocks.len() && blocks[k] == b;
            if k < rest.len() {
                assert(rest[k] == b);
                let i = choose|i: int| 0 <= i < before.len() && before[i] == b;
                assert(now[i] == b);
            } else if !before.contains(b) {
                assert(now[now.len() - 1] == b);
            }
        }
    }
}

/// `first_seen` keeps each block once.
pub proof fn lemma_first_seen_distinct(blocks: Seq<CidrBlock>)
    ensures
        first_seen(blocks).no_duplicates(),
    decreases blocks.len(),
{
    if blocks.len() > 0 {
        lemma_first_seen_distinct(blocks.drop_last());
    }
}

/// A log holds no hostname for a block that none of its matches names.
pub proof fn lemma_no_match_no_hostname(log: Seq<Match>, subnet: CidrBlock)
    requires
        !subnets_of(log).contains(subnet),
    ensures
        hostnames_in(log, subnet) == Seq::<Seq<char>>::empty(),
    decreases log.len(),
{
    let keep = |m: Match| m.subnet == subnet;
    if log.len() == 0 {
        assert(log.filter(keep) =~= Seq::<Match>::empty()) by {
            reveal(Seq::filter);
        }
    } else {
        let rest = log.drop_last();
        assert(log =~= rest.push(log.last()));
        assert(subnets_of(log)[log.len() - 1] == log.last().subnet);
        assert forall|k: int| 0 <= k < rest.len() implies subnets_of(rest)[k] != subnet by {
            assert(subnets_of(log)[k] == rest[k].subnet);
        }
        lemma_no_match_no_hostname(rest, subnet);
        rest.lemma_filter_push(log.last(), keep);
        assert(rest.filter(keep).len() == hostnames_in(rest, subnet).len());
    }
    assert(hostnames_in(log, subnet) =~= Seq::<Seq<char>>::empty());
}

/// Grouping a log with one more match is grouping the log and then adding
/// the match.
pub proof fn lemma_groups_push(log: Seq<Match>, m: Match)
    ensures
        distinct_subnets(groups_of(log)),
        groups_of(log.push(m)) == with_match(groups_of(log), m),
{
    let blocks = subnets_of(log);
    let keys = first_seen(blocks);
    let groups = groups_of(log);
    let longer = log.push(m);
    lemma_first_seen_distinct(blocks);
    lemma_first_seen_contains(blocks, m.subnet);
    assert(subnets_of(longer) =~= blocks.push(m.subnet));
    assert(subnets_of(longer).drop_last() =~= blocks);
    assert forall|k: int| 0 <= k < keys.len() implies hostnames_in(longer, #[trigger] keys[k])
        == if keys[k] == m.subnet {
        hostnames_in(log, keys[k]).push(m.hostname)
    } else {
        hostnames_in(log, keys[k])
    } by {
        let keep = |x: Match| x.subnet == keys[k];
        log.lemma_filter_push(m, keep);
        if keys[k] == m.subnet {
            assert(log.filter(keep).push(m).map_values(|x: Match| x.hostname)
                =~= log.filter(keep).map_values(|x: Match| x.hostname).push(m.hostname));
        }
    }
    if keys.contains(m.subnet) {
        let at = choose|i: int| 0 <= i < keys.len() && keys[i] == m.subnet;
        assert(groups[at].subnet == m.subnet);
        assert(has_group(groups, m.subnet));
        let i = choose|i: int| 0 <= i < groups.len() && (#[trigger] groups[i]).subnet == m.subnet;
        assert(keys[i] == m.subnet);
        assert(groups_of(longer) =~= with_match(groups, m));
    } else {
        assert(!has_group(groups, m.subnet)) by {
            if has_group(groups, m.subnet) {
                let i = choose|i: int|
                    0 <= i < groups.len() && (#[trigger] groups[i]).subnet == m.subnet;
                assert(keys[i] == m.subnet);
            }
        }
        lemma_no_match_no_hostname(log, m.subnet);
        log.lemma_filter_push(m, |x: Match| x.subnet == m.subnet);
        assert(hostnames_in(longer, m.subnet) =~= seq![m.hostname]);
        assert(groups_of(longer) =~= with_match(groups, m));
    }
}

/// The groups of a log are for the blocks that occur in it, each block once,
/// and no group is empty.
pub proof fn lemma_groups_well_formed(log: Seq<Match>)
    ensures
        distinct_subnets(groups_of(log)),
        forall|b: CidrBlock| has_group(groups_of(log), b) <==> subnets_of(log).contains(b),
        forall|g: int|
            0 <= g < groups_of(log).len() ==> (#[trigger] groups_of(log)[g]).hostnames.len() > 0,
{
    let blocks = subnets_of(log);
    let keys = first_seen(blocks);
    let groups = groups_of(log);
    lemma_first_seen_distinct(blocks);
    assert forall|b: CidrBlock| has_group(groups, b) <==> blocks.contains(b) by {
        lemma_first_seen_contains(blocks, b);
        if has_group(groups, b) {
            let i = choose|i: int| 0 <= i < groups.len() && (#[trigger] groups[i]).subnet == b;
            assert(keys[i] == b);
        }
        if keys.contains(b) {
            let i = choose|i: int| 0 <= i < keys.len() && keys[i] == b;
            assert(groups[i].subnet == b);
        }
    }
    assert forall|g: int| 0 <= g < groups.len() implies (#[trigger] groups[g]).hostnames.len()
        > 0 by {
        let b = keys[g];
        lemma_first_seen_contains(blocks, b);
        assert(keys.contains(b));
        let at = choose|at: int| 0 <= at < blocks.len() && blocks[at] == b;
        let keep = |m: Match| m.subnet == b;
        log.lemma_filter_contains(keep, at);
        assert(log.filter(keep).len() > 0);
    }
}

/// Adding a match leaves no two groups for the same block.
pub proof fn lemma_with_match_distinct(groups: Seq<SubnetGroupView>, m: Match)
    requires
        distinct_subnets(groups),
    ensures
        distinct_subnets(with_match(groups, m)),
{
    let after = with_match(groups, m);
    assert forall|i: int, j: int| 0 <= i < j < after.len() implies (#[trigger] after[i]).subnet != (
    #[trigger] after[j]).subnet by {
        if has_group(groups, m.subnet) {
            assert(after[i].subnet == groups[i].subnet);
            assert(after[j].subnet == groups[j].subnet);
        } else if j < groups.len() {
            assert(after[i] == groups[i]);
            assert(after[j] == groups[j]);
        } else {
            assert(after[i] == groups[i]);
        }
    }
}

/// Puts `hostname` into the group of `subnet`, which becomes a new last
/// group if there is none yet.
pub fn record_match(groups: &mut Vec<SubnetGroup>, subnet: CidrBlock, hostname: &String)
    requires
        distinct_subnets(group_views(old(groups)@)),
    ensures
        group_views(final(groups)@) == with_match(
            group_views(old(groups)@),
            Match { hostname: hostname@, subnet },
        ),
        distinct_subnets(group_views(final(groups)@)),
{
    proof {
        lemma_with_match_distinct(group_views(groups@), Match { hostname: hostname@, subnet });
    }
    let ghost before = group_views(groups@);
    let mut i: usize = 0;
    while i < groups.len()
        invariant
            i <= groups.len(),
            before == group_views(groups@),
            distinct_subnets(before),
            groups@ == old(groups)@,
            forall|k: int| 0 <= k < i ==> (#[trigger] before[k]).subnet != subnet,
        decreases groups.len() - i,
    {
        if groups[i].subnet == subnet {
            proof {
                assert(before[i as int].subnet == subnet);
                assert(has_group(before, subnet));
                let at = choose|k: int|
                    0 <= k < before.len() && (#[trigger] before[k]).subnet == subnet;
                assert(at == i);
            }
            groups[i].hostnames.push(hostname.clone());
            proof {
                let grown = SubnetGroupView {
                    subnet,
                    hostnames: before[i as int].hostnames.push(hostname@),
                };
                assert(text_views(groups@[i as int].hostnames@) =~= before[i as int].hostnames.push(
                    hostname@,
                ));
                assert(group_views(groups@) =~= before.update(i as int, grown));
            }
            return;
        }
        i += 1;
    }
    let mut hostnames: Vec<String> = Vec::new();
    hostnames.push(hostname.clone());
    groups.push(SubnetGroup { subnet, hostnames });
    proof {
        assert(!has_group(before, subnet));
        assert(text_views(groups@[groups@.len() - 1].hostnames@) =~= seq![hostname@]);
        assert(group_views(groups@) =~= before.push(
            SubnetGroupView { subnet, hostnames: seq![hostname@] },
        ));
    }
}

} // verus!
