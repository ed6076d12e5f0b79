//! Hosts of an inventory, sorted by the CIDR blocks that hold their address.

use crate::grouping::{
    distinct_subnets, group_views, groups_of, lemma_groups_push, lemma_groups_well_formed,
    lemma_no_match_no_group, record_match, Match, SubnetGroup, SubnetGroupView,
};
use crate::ipv4::{ipv4_of, parse_ipv4};
use crate::network::{is_ip_in_subnet, CidrBlock};
use crate::text::{same_text, slice_view, text_views};
use vstd::prelude::*;

verus! {

/// Whether the inventory reports a host as online.
#[derive(Clone, Copy, Debug, PartialEq, Eq, Structural)]
pub enum HostStatus {
    Online,
    Other,
}

/// One host as the inventory lists it.
#[derive(Clone, Debug)]
pub struct HostRecord {
    pub hostname: String,
    pub status: HostStatus,
    /// The host's address as text; it need not be a valid address.
    pub station: String,
}

/// A host record as a mathematical value.
pub struct HostView {
    pub hostname: Seq<char>,
    pub status: HostStatus,
    pub station: Seq<char>,
}

impl View for HostRecord {
    type V = HostView;

    open spec fn view(&self) -> HostView {
        HostView { hostname: self.hostname@, status: self.status, station: self.station@ }
    }
}

/// What classification found for one online host with a valid address.
#[derive(Clone, Debug)]
pub struct ServerInfo {
    pub hostname: String,
    pub ip_address: u32,
    /// The blocks that hold the address, in the order they were given.
    pub matched_subnets: Vec<CidrBlock>,
    /// The blocks that do not hold the address, in the order they were given.
    pub missed_subnets: Vec<CidrBlock>,
}

/// A `ServerInfo` as a mathematical value.
pub struct ServerInfoView {
    pub hostname: Seq<char>,
    pub ip_address: u32,
    pub matched_subnets: Seq<CidrBlock>,
    pub missed_subnets: Seq<CidrBlock>,
}

impl View for ServerInfo {
    type V = ServerInfoView;

    open spec fn view(&self) -> ServerInfoView {
        ServerInfoView {
            hostname: self.hostname@,
            ip_address: self.ip_address,
            matched_subnets: self.matched_subnets@,
            missed_subnets: self.missed_subnets@,
        }
    }
}

/// The views of a list of host records.
pub open spec fn host_views(hosts: Seq<HostRecord>) -> Seq<HostView> {
    hosts.map_values(|h: HostRecord| h@)
}

/// The views of a list of `ServerInfo`.
pub open spec fn info_views(infos: Seq<ServerInfo>) -> Seq<ServerInfoView> {
    infos.map_values(|s: ServerInfo| s@)
}

/// Every block of the list has a prefix length in `0..=32`.
pub open spec fn all_valid(subnets: Seq<CidrBlock>) -> bool {
    forall|j: int| 0 <= j < subnets.len() ==> (#[trigger] subnets[j]).valid()
}

/// The status that the inventory's text stands for: online for the text
/// `online`, other for every other text.
pub open spec fn status_of(text: Seq<char>) -> HostStatus {
    if text == "online"@ {
        HostStatus::Online
    } else {
        HostStatus::Other
    }
}

/// The record that stands for one entry of the inventory: the three texts
/// where all are there, else a record that is not online and holds no text.
pub open spec fn entry_view(
    status: Option<Seq<char>>,
    hostname: Option<Seq<char>>,
    station: Option<Seq<char>>,
) -> HostView {
    if status is Some && hostname is Some && station is Some {
        HostView { hostname: hostname->0, status: status_of(status->0), station: station->0 }
    } else {
        HostView {
            hostname: Seq::<char>::empty(),
            status: HostStatus::Other,
            station: Seq::<char>::empty(),
        }
    }
}

/// The host takes part in classification: it is online and its address reads
/// as a dotted quad.
pub open spec fn classifiable(host: HostView) -> bool {
    host.status == HostStatus::Online && ipv4_of(host.station) is Some
}

/// The blocks of `subnets` that hold `ip`, in their order.
pub open spec fn matched(subnets: Seq<CidrBlock>, ip: u32) -> Seq<CidrBlock> {
    subnets.filter(|b: CidrBlock| b.contains(ip))
}

/// The blocks of `subnets` that do not hold `ip`, in their order.
pub open spec fn missed(subnets: Seq<CidrBlock>, ip: u32) -> Seq<CidrBlock> {
    subnets.filter(|b: CidrBlock| !b.contains(ip))
}

/// What classification finds for a host that takes part in it.
pub open spec fn info_of(host: HostView, subnets: Seq<CidrBlock>) -> ServerInfoView {
    let ip = ipv4_of(host.station)->0;
    ServerInfoView {
        hostname: host.hostname,
        ip_address: ip,
        matched_subnets: matched(subnets, ip),
        missed_subnets: missed(subnets, ip),
    }
}

impl HostRecord {
    /// A record with the given hostname, status and address text.
    pub fn new(hostname: &str, status: HostStatus, station: &str) -> (record: HostRecord)
        ensures
            record@ == (HostView { hostname: hostname@, status, station: station@ }),
    {
        HostRecord { hostname: hostname.to_owned(), status, station: station.to_owned() }
    }

    /// The record for one entry of the inventory, of which each text may be
    /// absent. An entry that lacks one of them stands for a host that is not
    /// online: it counts as a record and takes part in nothing else.
    pub fn from_fields(status: Option<&str>, hostname: Option<&str>, station: Option<&str>) -> (record:
        HostRecord)
        ensures
            record@ == entry_view(slice_view(status), slice_view(hostname), slice_view(station)),
    {
        match (status, hostname, station) {
            (Some(status), Some(hostname), Some(station)) => HostRecord::new(
                hostname,
                HostStatus::from_text(status),
                station,
            ),
            _ => {
                proof {
                    reveal_strlit("");
                    assert(""@ =~= Seq::<char>::empty());
                }
                HostRecord::new("", HostStatus::Other, "")
            },
        }
    }
}

impl HostStatus {
    /// The status that the inventory's text stands for.
    pub fn from_text(text: &str) -> (status: HostStatus)
        ensures
            status == status_of(text@),
    {
        if same_text(text, "online") {
            HostStatus::Online
        } else {
            HostStatus::Other
        }
    }
}

/// Sorts `subnets` into those that hold `ip` and those that do not, each in
/// the order given.
pub fn split_by_membership(ip: u32, subnets: &Vec<CidrBlock>) -> (lists: (
    Vec<CidrBlock>,
    Vec<CidrBlock>,
))
    requires
        all_valid(subnets@),
    ensures
        lists.0@ == matched(subnets@, ip),
        lists.1@ == missed(subnets@, ip),
{
    let mut inside: Vec<CidrBlock> = Vec::new();
    let mut outside: Vec<CidrBlock> = Vec::new();
    let mut j: usize = 0;
    proof {
        assert(subnets@.take(0).filter(|b: CidrBlock| b.contains(ip)) =~= Seq::empty()) by {
            reveal(Seq::filter);
        }
        assert(subnets@.take(0).filter(|b: CidrBlock| !b.contains(ip)) =~= Seq::empty()) by {
            reveal(Seq::filter);
        }
    }
    while j < subnets.len()
        invariant
            j <= subnets.len(),
            all_valid(subnets@),
            inside@ == matched(subnets@.take(j as int), ip),
            outside@ == missed(subnets@.take(j as int), ip),
        decreases subnets.len() - j,
    {
        let subnet = subnets[j];
        proof {
            assert(subnets@.take(j + 1) =~= subnets@.take(j as int).push(subnet));
            subnets@.take(j as int).lemma_filter_push(subnet, |b: CidrBlock| b.contains(ip));
            subnets@.take(j as int).lemma_filter_push(subnet, |b: CidrBlock| !b.contains(ip));
        }
        if is_ip_in_subnet(ip, subnet.address, subnet.prefix) {
            inside.push(subnet);
        } else {
            outside.push(subnet);
        }
        j += 1;
    }
    proof {
        assert(subnets@.take(j as int) =~= subnets@);
    }
    (inside, outside)
}

/// The matches of one host, in the order of its matched blocks.
pub open spec fn matches_of(info: ServerInfoView) -> Seq<Match> {
    info.matched_subnets.map_values(|b: CidrBlock| Match { hostname: info.hostname, subnet: b })
}

/// All matches in the order classification finds them: host by host, and
/// for each host block by block.
pub open spec fn match_log(infos: Seq<ServerInfoView>) -> Seq<Match> {
    infos.flat_map(|info: ServerInfoView| matches_of(info))
}

/// What classification found for a whole inventory.
#[derive(Clone, Debug)]
pub struct ApiResult {
    /// The number of records in the inventory.
    pub total_servers: usize,
    /// The number of records whose status is online.
    pub online_servers: usize,
    /// One entry for each online host with a valid address, in the inventory's order.
    pub server_info: Vec<ServerInfo>,
    /// One group for each block that holds a host, in the order of first match.
    pub grouped_servers: Vec<SubnetGroup>,
    /// The hostnames of the hosts that no block holds, in the inventory's order.
    pub servers_without_matches: Vec<String>,
}

/// An `ApiResult` as a mathematical value.
pub struct ApiResultView {
    pub total_servers: nat,
    pub online_servers: nat,
    pub server_info: Seq<ServerInfoView>,
    pub grouped_servers: Seq<SubnetGroupView>,
    pub servers_without_matches: Seq<Seq<char>>,
}

impl View for ApiResult {
    type V = ApiResultView;

    open spec fn view(&self) -> ApiResultView {
        ApiResultView {
            total_servers: self.total_servers as nat,
            online_servers: self.online_servers as nat,
            server_info: info_views(self.server_info@),
            grouped_servers: group_views(self.grouped_servers@),
            servers_without_matches: text_views(self.servers_without_matches@),
        }
    }
}

/// The number of hosts whose status is online.
pub open spec fn online_count(hosts: Seq<HostView>) -> nat {
    hosts.filter(|h: HostView| h.status == HostStatus::Online).len()
}

/// The findings for the hosts that take part in classification, in the
/// inventory's order.
pub open spec fn infos_of(hosts: Seq<HostView>, subnets: Seq<CidrBlock>) -> Seq<ServerInfoView> {
    hosts.filter(|h: HostView| classifiable(h)).map_values(|h: HostView| info_of(h, subnets))
}

/// The hostnames of the findings without a matched block, in their order.
pub open spec fn unmatched(infos: Seq<ServerInfoView>) -> Seq<Seq<char>> {
    infos.filter(|s: ServerInfoView| s.matched_subnets.len() == 0).map_values(
        |s: ServerInfoView| s.hostname,
    )
}

/// The classification of an inventory against a list of blocks.
pub open spec fn classification(hosts: Seq<HostView>, subnets: Seq<CidrBlock>) -> ApiResultView {
    let infos = infos_of(hosts, subnets);
    ApiResultView {
        total_servers: hosts.len(),
        online_servers: online_count(hosts),
        server_info: infos,
        grouped_servers: groups_of(match_log(infos)),
        servers_without_matches: unmatched(infos),
    }
}

/// Classifies the hosts of an inventory by the blocks that hold their
/// address. A host takes part if its status is online and its address reads
/// as a dotted quad; every block is tried for every such host.
pub fn classify_hosts(hosts: &Vec<HostRecord>, subnets: &Vec<CidrBlock>) -> (result: ApiResult)
    requires
        all_valid(subnets@),
    ensures
        result@ == classification(host_views(hosts@), subnets@),
        result.server_info@.len() <= result.online_servers <= result.total_servers,
        distinct_subnets(result@.grouped_servers),
        forall|g: int|
            0 <= g < result@.grouped_servers.len() ==> (
            #[trigger] result@.grouped_servers[g]).hostnames.len() > 0,
{
    let ghost all = host_views(hosts@);
    let mut online: usize = 0;
    let mut infos: Vec<ServerInfo> = Vec::new();
    let mut groups: Vec<SubnetGroup> = Vec::new();
    let mut unmatched_names: Vec<String> = Vec::new();
    let mut i: usize = 0;
    proof {
        reveal(Seq::filter);
        assert(all.take(0) =~= Seq::<HostView>::empty());
        assert(info_views(infos@) =~= infos_of(all.take(0), subnets@));
        assert(match_log(info_views(infos@)) =~= Seq::<Match>::empty());
        lemma_no_match_no_group();
        assert(group_views(groups@) =~= groups_of(match_log(info_views(infos@))));
        assert(text_views(unmatched_names@) =~= unmatched(info_views(infos@)));
    }
    while i < hosts.len()
        invariant
            i <= hosts.len(),
            all == host_views(hosts@),
            all_valid(subnets@),
            online == online_count(all.take(i as int)),
            infos@.len() <= online <= i,
            info_views(infos@) == infos_of(all.take(i as int), subnets@),
            group_views(groups@) == groups_of(match_log(info_views(infos@))),
            text_views(unmatched_names@) == unmatched(info_views(infos@)),
        decreases hosts.len() - i,
    {
        let host = &hosts[i];
        let ghost seen = all.take(i as int);
        let ghost found = info_views(infos@);
        proof {
            assert(all.take(i + 1) =~= seen.push(host@));
            seen.lemma_filter_push(host@, |h: HostView| h.status == HostStatus::Online);
            seen.lemma_filter_push(host@, |h: HostView| classifiable(h));
        }
        let is_online = match host.status {
            HostStatus::Online => true,
            HostStatus::Other => false,
        };
        if is_online {
            online += 1;
            if let Some(ip) = parse_ipv4(host.station.as_str()) {
                let (inside, outside) = split_by_membership(ip, subnets);
                let ghost info = info_of(host@, subnets@);
                let ghost log = match_log(found);
                let mut k: usize = 0;
                proof {
                    assert(log + matches_of(info).take(0) =~= log);
                }
                while k < inside.len()
                    invariant
                        k <= inside.len(),
                        inside@ == info.matched_subnets,
                        info.hostname == host.hostname@,
                        group_views(groups@) == groups_of(log + matches_of(info).take(k as int)),
                    decreases inside.len() - k,
                {
                    let ghost done = log + matches_of(info).take(k as int);
                    let ghost m = Match { hostname: host.hostname@, subnet: inside@[k as int] };
                    proof {
                        assert(matches_of(info)[k as int] == m);
                        assert(log + matches_of(info).take(k + 1) =~= done.push(m));
                        lemma_groups_push(done, m);
                    }
                    record_match(&mut groups, inside[k], &host.hostname);
                    k += 1;
                }
                proof {
                    assert(matches_of(info).take(k as int) =~= matches_of(info));
                    found.lemma_flat_map_push(|s: ServerInfoView| matches_of(s), info);
                    found.lemma_filter_push(
                        info,
                        |s: ServerInfoView| s.matched_subnets.len() == 0,
                    );
                }
                if inside.len() == 0 {
                    unmatched_names.push(host.hostname.clone());
                }
                infos.push(
                    ServerInfo {
                        hostname: host.hostname.clone(),
                        ip_address: ip,
                        matched_subnets: inside,
                        missed_subnets: outside,
                    },
                );
                proof {
                    assert(info_views(infos@) =~= found.push(info));
                    assert(info_views(infos@) =~= infos_of(all.take(i + 1), subnets@));
                    assert(unmatched(found.push(info)) =~= if inside@.len() == 0 {
                        unmatched(found).push(info.hostname)
                    } else {
                        unmatched(found)
                    });
                    assert(text_views(unmatched_names@) =~= unmatched(found.push(info)));
                }
            }
        }
        i += 1;
    }
    proof {
        assert(all.take(i as int) =~= all);
        lemma_groups_well_formed(match_log(info_views(infos@)));
    }
    ApiResult {
        total_servers: hosts.len(),
        online_servers: online,
        server_info: infos,
        grouped_servers: groups,
        servers_without_matches: unmatched_names,
    }
}

/// No block of `subnets` holds `ip`.
pub open spec fn outside_all(subnets: Seq<CidrBlock>, ip: u32) -> bool {
    forall|j: int| 0 <= j < subnets.len() ==> !(#[trigger] subnets[j]).contains(ip)
}

/// The address of a host that takes part in classification.
pub open spec fn address_of_host(host: HostView) -> u32 {
    ipv4_of(host.station)->0
}

/// An address that no block holds has an empty list of matched blocks, and
/// the other way round.
pub proof fn lemma_outside_all_matches_nothing(subnets: Seq<CidrBlock>, ip: u32)
    ensures
        outside_all(subnets, ip) <==> matched(subnets, ip).len() == 0,
{
    let holds = |b: CidrBlock| b.contains(ip);
    if outside_all(subnets, ip) {
        if matched(subnets, ip).len() > 0 {
            let b = matched(subnets, ip)[0];
            subnets.lemma_filter_pred(holds, 0);
            assert(subnets.filter(holds).contains(b));
            subnets.lemma_filter_contains_rev(holds, b);
            let j = choose|j: int| 0 <= j < subnets.len() && subnets[j] == b;
            assert(!subnets[j].contains(ip));
        }
    } else {
        let j = choose|j: int| 0 <= j < subnets.len() && (#[trigger] subnets[j]).contains(ip);
        subnets.lemma_filter_contains(holds, j);
    }
}

/// Every match of the log belongs to one of the findings: it carries that
/// finding's hostname and one of its matched blocks.
pub proof fn lemma_match_has_host(infos: Seq<ServerInfoView>, m: Match)
    requires
        match_log(infos).contains(m),
    ensures
        exists|p: int|
            0 <= p < infos.len() && (#[trigger] infos[p]).hostname == m.hostname
                && infos[p].matched_subnets.contains(m.subnet),
    decreases infos.len(),
{
    let each = |info: ServerInfoView| matches_of(info);
    if infos.len() == 0 {
        assert(infos.map_values(each) =~= Seq::<Seq<Match>>::empty());
        assert(match_log(infos).len() == 0);
    } else {
        let rest = infos.drop_last();
        let last = infos.last();
        assert(infos =~= rest.push(last));
        rest.lemma_flat_map_push(each, last);
        vstd::seq_lib::lemma_seq_concat_contains_all_elements(match_log(rest), matches_of(last), m);
        if match_log(rest).contains(m) {
            lemma_match_has_host(rest, m);
            let p = choose|p: int|
                0 <= p < rest.len() && (#[trigger] rest[p]).hostname == m.hostname
                    && rest[p].matched_subnets.contains(m.subnet);
            assert(infos[p] == rest[p]);
        } else {
            let q = choose|q: int| 0 <= q < matches_of(last).len() && matches_of(last)[q] == m;
            assert(last.matched_subnets[q] == m.subnet);
            assert(infos[infos.len() - 1] == last);
        }
    }
}

/// A host that takes part in classification and whose address lies outside
/// every block is listed among the hosts without matches.
pub proof fn lemma_outside_host_is_unmatched(
    hosts: Seq<HostView>,
    subnets: Seq<CidrBlock>,
    i: int,
)
    requires
        0 <= i < hosts.len(),
        classifiable(hosts[i]),
        outside_all(subnets, address_of_host(hosts[i])),
    ensures
        classification(hosts, subnets).servers_without_matches.contains(hosts[i].hostname),
{
    let takes_part = |h: HostView| classifiable(h);
    let alone = |s: ServerInfoView| s.matched_subnets.len() == 0;
    let infos = infos_of(hosts, subnets);
    let info = info_of(hosts[i], subnets);
    lemma_outside_all_matches_nothing(subnets, address_of_host(hosts[i]));
    hosts.lemma_filter_contains(takes_part, i);
    let p = choose|p: int|
        0 <= p < hosts.filter(takes_part).len() && hosts.filter(takes_part)[p] == hosts[i];
    assert(infos[p] == info);
    infos.lemma_filter_contains(alone, p);
    let q = choose|q: int| 0 <= q < infos.filter(alone).len() && infos.filter(alone)[q] == info;
    assert(unmatched(infos)[q] == hosts[i].hostname);
}

/// A hostname stands in no group if every host of that name that takes part
/// in classification has its address outside every block.
pub proof fn lemma_outside_name_in_no_group(
    hosts: Seq<HostView>,
    subnets: Seq<CidrBlock>,
    hostname: Seq<char>,
)
    requires
        forall|k: int|
            0 <= k < hosts.len() && classifiable(#[trigger] hosts[k]) && hosts[k].hostname
                == hostname ==> outside_all(subnets, address_of_host(hosts[k])),
    ensures
        forall|g: int|
            0 <= g < classification(hosts, subnets).grouped_servers.len() ==> !(
            #[trigger] classification(hosts, subnets).grouped_servers[g]).hostnames.contains(
                hostname,
            ),
{
    let takes_part = |h: HostView| classifiable(h);
    let infos = infos_of(hosts, subnets);
    let log = match_log(infos);
    let groups = groups_of(log);
    assert forall|g: int| 0 <= g < groups.len() implies !(#[trigger] groups[g]).hostnames.contains(
        hostname,
    ) by {
        let names = groups[g].hostnames;
        if names.contains(hostname) {
            let keep = |m: Match| m.subnet == groups[g].subnet;
            let q = choose|q: int| 0 <= q < names.len() && names[q] == hostname;
            let m = log.filter(keep)[q];
            assert(log.filter(keep).contains(m));
            log.lemma_filter_contains_rev(keep, m);
            lemma_match_has_host(infos, m);
            let p = choose|p: int|
                0 <= p < infos.len() && (#[trigger] infos[p]).hostname == m.hostname
                    && infos[p].matched_subnets.contains(m.subnet);
            let host = hosts.filter(takes_part)[p];
            assert(hosts.filter(takes_part).contains(host));
            hosts.lemma_filter_pred(takes_part, p);
            hosts.lemma_filter_contains_rev(takes_part, host);
            let k = choose|k: int| 0 <= k < hosts.len() && hosts[k] == host;
            assert(infos[p] == info_of(hosts[k], subnets));
            lemma_outside_all_matches_nothing(subnets, address_of_host(hosts[k]));
        }
    }
}

} // verus!
