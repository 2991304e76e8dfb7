use std::collections::HashMap;
use vstd::prelude::*;

use crate::text::{
    fields, ipv4_octets, is_ipv4, lemma_fields_nonempty, lemma_text_lt_irreflexive,
    lemma_text_lt_total, lemma_text_lt_transitive, piece, scan_ipv4, scan_model, scan_unsigned,
    split_spans, text_lt, NumberScan,
};

verus! {

broadcast use vstd::std_specs::hash::group_hash_axioms;

/// The UDP port on which KiNET power/data supplies listen.
pub const KINET_UDP_PORT: u16 = 6038;

/// An IPv4 socket address: four octets and a UDP port.
#[derive(Debug, Clone, Copy, PartialEq, Eq)]
pub struct KinetSocketAddr {
    pub ip: [u8; 4],
    pub port: u16,
}

/// Where the data of one Art-Net universe is sent.
#[derive(Debug, Clone, PartialEq, Eq)]
pub struct KinetDestination {
    pub artnet_network: u16,
    pub artnet_subnet: u8,
    pub artnet_universe: u8,
    pub kinet_address: String,
    pub kinet_socket_addr: KinetSocketAddr,
    /// 0 for a legacy DMX output frame, 1 to 16 for a port-addressed one.
    pub kinet_port: u8,
}

/// The mathematical content of a `KinetDestination`.
pub ghost struct DestinationModel {
    pub network: u16,
    pub subnet: u8,
    pub universe: u8,
    pub address: Seq<char>,
    pub ip: Seq<u8>,
    pub socket_port: u16,
    pub port: u8,
}

impl View for KinetDestination {
    type V = DestinationModel;

    open spec fn view(&self) -> DestinationModel {
        DestinationModel {
            network: self.artnet_network,
            subnet: self.artnet_subnet,
            universe: self.artnet_universe,
            address: self.kinet_address@,
            ip: self.kinet_socket_addr.ip@,
            socket_port: self.kinet_socket_addr.port,
            port: self.kinet_port,
        }
    }
}

/// Which value of a mapping string could not be read as a number.
#[derive(Debug, Clone, Copy, PartialEq, Eq, Structural)]
pub enum MappingField {
    Port,
    Universe,
    Subnet,
    Network,
}

/// Why a mapping string was rejected.
#[derive(Debug, Clone, Copy, PartialEq, Eq, Structural)]
pub enum MappingError {
    /// A value is not an unsigned number of the field's width.
    NotANumber(MappingField),
    /// The output port is a number above 16.
    PortTooLarge,
    /// The destination address is not an IPv4 literal.
    InvalidAddress,
    /// More than network, subnet and universe precede the address.
    TooManyValues,
}

/// Why a configuration could not be built.
#[derive(Debug, Clone, PartialEq, Eq)]
pub enum ConfigError {
    NoArtnetAddress,
    NoKinetAddress,
    NoMappings,
    InvalidMapping { mapping: String, reason: MappingError },
}

/// The Art-Net port-address: network in the top 7 bits, then subnet and
/// universe in 4 bits each.
pub open spec fn port_address_key(network: u16, subnet: u8, universe: u8) -> u16 {
    ((universe % 16) + (subnet % 16) * 16 + (network % 128) * 256) as u16
}

pub open spec fn key_of(d: DestinationModel) -> u16 {
    port_address_key(d.network, d.subnet, d.universe)
}

/// Packs network, subnet and universe into the routing key.
pub fn combined_address(network: u16, subnet: u8, universe: u8) -> (key: u16)
    ensures
        key == port_address_key(network, subnet, universe),
        key < 0x8000,
{
    let u = (universe & 0x0F) as u16;
    let s = ((subnet & 0x0F) << 4) as u16;
    let n = (network & 0x7F) << 8;
    assert(universe & 0x0F == universe % 16) by (bit_vector);
    assert(((subnet & 0x0F) << 4) as u8 == (subnet % 16) * 16) by (bit_vector);
    assert((network & 0x7F) << 8 == (network % 128) * 256) by (bit_vector);
    u + s + n
}

/// The value of the `i`-th optional source field, counted from the right
/// among `rest`; an absent field is 0.
pub open spec fn source_field(rest: Seq<Seq<char>>, i: int, limit: u32) -> Option<nat> {
    if rest.len() <= i {
        Some(0)
    } else {
        match scan_model(rest[rest.len() - 1 - i], limit) {
            NumberScan::Value(v) => Some(v as nat),
            _ => None,
        }
    }
}

/// The destination described by the tokens `rest` that precede `address`.
pub open spec fn source_model(rest: Seq<Seq<char>>, address: Seq<char>, port: u8) -> Result<
    DestinationModel,
    MappingError,
> {
    let universe = source_field(rest, 0, 255);
    let subnet = source_field(rest, 1, 255);
    let network = source_field(rest, 2, 0xFFFF);
    if universe is None {
        Err(MappingError::NotANumber(MappingField::Universe))
    } else if subnet is None {
        Err(MappingError::NotANumber(MappingField::Subnet))
    } else if network is None {
        Err(MappingError::NotANumber(MappingField::Network))
    } else if rest.len() > 3 {
        Err(MappingError::TooManyValues)
    } else {
        Ok(
            DestinationModel {
                network: network->Some_0 as u16,
                subnet: subnet->Some_0 as u8,
                universe: universe->Some_0 as u8,
                address,
                ip: ipv4_octets(address),
                socket_port: KINET_UDP_PORT,
                port,
            },
        )
    }
}

/// What a mapping string `[network:[subnet:[universe:]]]address[:port]` means,
/// its `:`-separated tokens read from the right.
#[verifier::opaque]
pub open spec fn mapping_model(s: Seq<char>) -> Result<DestinationModel, MappingError> {
    let t = fields(s, ':');
    let n = t.len();
    if is_ipv4(t[n - 1]) {
        source_model(t.take(n - 1), t[n - 1], 0)
    } else {
        match scan_model(t[n - 1], 16) {
            NumberScan::NotANumber => Err(MappingError::NotANumber(MappingField::Port)),
            NumberScan::TooLarge => Err(MappingError::PortTooLarge),
            NumberScan::Value(p) => {
                if n < 2 || !is_ipv4(t[n - 2]) {
                    Err(MappingError::InvalidAddress)
                } else {
                    source_model(t.take(n - 2), t[n - 2], p as u8)
                }
            },
        }
    }
}

/// Reads the `i`-th optional source field from the right among the first
/// `count` tokens.
fn read_source_field(
    s: &str,
    tokens: &Vec<(usize, usize)>,
    count: usize,
    i: usize,
    limit: u32,
) -> (r: Option<u32>)
    requires
        count <= tokens@.len(),
        i <= 2,
        limit <= 0xFFFF,
        forall|k: int| 0 <= k < count ==> #[trigger] tokens@[k].0 <= tokens@[k].1 <= s@.len(),
    ensures
        r matches Some(v) ==> source_field(
            Seq::new(count as nat, |k: int| piece(s@, tokens@[k])),
            i as int,
            limit,
        ) == Some(v as nat),
        r is None ==> source_field(
            Seq::new(count as nat, |k: int| piece(s@, tokens@[k])),
            i as int,
            limit,
        ) is None,
{
    if count <= i {
        Some(0)
    } else {
        match scan_unsigned(s, tokens[count - 1 - i], limit) {
            NumberScan::Value(v) => Some(v),
            _ => None,
        }
    }
}

/// Parses one mapping string into its routing key and destination.
pub fn parse_mapping(mapping: &str) -> (r: Result<(u16, KinetDestination), MappingError>)
    ensures
        match r {
            Ok((key, d)) => mapping_model(mapping@) == Ok::<DestinationModel, MappingError>(d@)
                && key == key_of(d@),
            Err(e) => mapping_model(mapping@) == Err::<DestinationModel, MappingError>(e),
        },
{
    reveal(mapping_model);
    let len = mapping.unicode_len();
    let tokens = split_spans(mapping, 0, len, ':');
    let ghost t = fields(mapping@, ':');
    proof {
        assert(mapping@.subrange(0, len as int) =~= mapping@);
        lemma_fields_nonempty(mapping@, ':');
    }
    let n = tokens.len();
    let last = tokens[n - 1];
    assert(piece(mapping@, last) == t[n - 1]);
    let (address, port, count, ip) = match scan_ipv4(mapping, last) {
        Some(ip) => (last, 0u8, n - 1, ip),
        None => match scan_unsigned(mapping, last, 16) {
            NumberScan::NotANumber => {
                return Err(MappingError::NotANumber(MappingField::Port));
            },
            NumberScan::TooLarge => {
                return Err(MappingError::PortTooLarge);
            },
            NumberScan::Value(p) => {
                if n < 2 {
                    return Err(MappingError::InvalidAddress);
                }
                let a = tokens[n - 2];
                assert(piece(mapping@, a) == t[n - 2]);
                match scan_ipv4(mapping, a) {
                    Some(ip) => (a, p as u8, n - 2, ip),
                    None => {
                        return Err(MappingError::InvalidAddress);
                    },
                }
            },
        },
    };
    let ghost rest = t.take(count as int);
    proof {
        assert(rest =~= Seq::new(count as nat, |k: int| piece(mapping@, tokens@[k])));
    }
    let universe = match read_source_field(mapping, &tokens, count, 0, 255) {
        Some(v) => v as u8,
        None => {
            return Err(MappingError::NotANumber(MappingField::Universe));
        },
    };
    let subnet = match read_source_field(mapping, &tokens, count, 1, 255) {
        Some(v) => v as u8,
        None => {
            return Err(MappingError::NotANumber(MappingField::Subnet));
        },
    };
    let network = match read_source_field(mapping, &tokens, count, 2, 0xFFFF) {
        Some(v) => v as u16,
        None => {
            return Err(MappingError::NotANumber(MappingField::Network));
        },
    };
    if count > 3 {
        return Err(MappingError::TooManyValues);
    }
    let kinet_address = mapping.substring_char(address.0, address.1).to_owned();
    let d = KinetDestination {
        artnet_network: network,
        artnet_subnet: subnet,
        artnet_universe: universe,
        kinet_address,
        kinet_socket_addr: KinetSocketAddr { ip, port: KINET_UDP_PORT },
        kinet_port: port,
    };
    let key = combined_address(network, subnet, universe);
    Ok((key, d))
}

/// The text of each string.
pub open spec fn texts(v: Seq<String>) -> Seq<Seq<char>> {
    v.map_values(|m: String| m@)
}

/// The table that the mapping strings `ms` build, parsed in order with a later
/// destination replacing an earlier one of the same key; or the position of
/// the first string that fails to parse, and why.
pub open spec fn table_model(ms: Seq<Seq<char>>) -> Result<Map<u16, DestinationModel>, (int, MappingError)>
    decreases ms.len(),
{
    if ms.len() == 0 {
        Ok(Map::empty())
    } else {
        match table_model(ms.drop_last()) {
            Err(e) => Err(e),
            Ok(m) => match mapping_model(ms.last()) {
                Err(e) => Err((ms.len() - 1, e)),
                Ok(d) => Ok(m.insert(key_of(d), d)),
            },
        }
    }
}

/// The destinations of `h` are those that `m` describes.
pub open spec fn table_matches(h: Map<u16, KinetDestination>, m: Map<u16, DestinationModel>) -> bool {
    &&& h.dom() == m.dom()
    &&& forall|k: u16| #[trigger] h.contains_key(k) ==> h[k]@ == m[k]
}

/// `e` reports that `mapping` failed for `reason`.
pub open spec fn reports_mapping(e: ConfigError, mapping: Seq<char>, reason: MappingError) -> bool {
    match e {
        ConfigError::InvalidMapping { mapping: m, reason: r } => m@ == mapping && r == reason,
        _ => false,
    }
}

/// Builds the routing table from mapping strings, in the order given; any
/// string that fails to parse fails the whole build.
pub fn mappings_to_destinations(mappings: Vec<String>) -> (r: Result<
    HashMap<u16, KinetDestination>,
    ConfigError,
>)
    ensures
        match (r, table_model(texts(mappings@))) {
            (Ok(h), Ok(m)) => table_matches(h@, m),
            (Err(e), Err((i, reason))) => 0 <= i < mappings@.len() && reports_mapping(
                e,
                mappings@[i]@,
                reason,
            ),
            _ => false,
        },
{
    let ghost ms = texts(mappings@);
    let mut table: HashMap<u16, KinetDestination> = HashMap::new();
    let mut i: usize = 0;
    proof {
        assert(ms.take(0) =~= Seq::<Seq<char>>::empty());
        assert(table@ =~= Map::<u16, KinetDestination>::empty());
    }
    while i < mappings.len()
        invariant
            i <= mappings@.len(),
            ms == texts(mappings@),
            table_model(ms.take(i as int)) is Ok,
            table_matches(table@, table_model(ms.take(i as int))->Ok_0),
        decreases mappings@.len() - i,
    {
        let ghost prev = ms.take(i as int);
        let ghost next = ms.take(i + 1);
        proof {
            assert(next.drop_last() =~= prev);
            assert(next.last() == mappings@[i as int]@);
        }
        match parse_mapping(mappings[i].as_str()) {
            Ok((key, d)) => {
                table.insert(key, d);
                proof {
                    let m = table_model(next)->Ok_0;
                    assert(table@.dom() =~= m.dom());
                }
            },
            Err(reason) => {
                let mapping = mappings[i].clone();
                proof {
                    lemma_table_model_prefix(ms, i as int + 1);
                }
                return Err(ConfigError::InvalidMapping { mapping, reason });
            },
        }
        i = i + 1;
    }
    proof {
        assert(ms.take(i as int) =~= ms);
    }
    Ok(table)
}

/// Once a prefix of the strings fails, the whole sequence fails at the same place.
proof fn lemma_table_model_prefix(ms: Seq<Seq<char>>, n: int)
    requires
        0 <= n <= ms.len(),
        table_model(ms.take(n)) is Err,
    ensures
        table_model(ms) == table_model(ms.take(n)),
    decreases ms.len() - n,
{
    if n < ms.len() {
        let next = ms.take(n + 1);
        assert(next.drop_last() =~= ms.take(n));
        lemma_table_model_prefix(ms, n + 1);
    } else {
        assert(ms.take(n) =~= ms);
    }
}

/// Later wins: when two mapping strings that both parse give the same key,
/// the table built from them, after any other strings, sends that key to the
/// destination of the second.
pub proof fn lemma_later_mapping_wins(ms: Seq<Seq<char>>, first: Seq<char>, second: Seq<char>)
    requires
        table_model(ms) is Ok,
        mapping_model(first) is Ok,
        mapping_model(second) is Ok,
        key_of(mapping_model(first)->Ok_0) == key_of(mapping_model(second)->Ok_0),
    ensures
        table_model(ms.push(first).push(second)) is Ok,
        table_model(ms.push(first).push(second))->Ok_0[key_of(mapping_model(second)->Ok_0)]
            == mapping_model(second)->Ok_0,
        table_model(ms.push(first).push(second))->Ok_0.dom() == table_model(ms)->Ok_0.dom().insert(
            key_of(mapping_model(second)->Ok_0),
        ),
{
    let with_first = ms.push(first);
    let both = with_first.push(second);
    let m0 = table_model(ms)->Ok_0;
    let d1 = mapping_model(first)->Ok_0;
    let d2 = mapping_model(second)->Ok_0;
    assert(both.drop_last() =~= with_first);
    assert(with_first.drop_last() =~= ms);
    assert(table_model(with_first) == Ok::<Map<u16, DestinationModel>, (int, MappingError)>(
        m0.insert(key_of(d1), d1),
    ));
    assert(table_model(both) == Ok::<Map<u16, DestinationModel>, (int, MappingError)>(
        m0.insert(key_of(d1), d1).insert(key_of(d2), d2),
    ));
    assert(m0.insert(key_of(d1), d1).insert(key_of(d2), d2).dom() =~= m0.dom().insert(key_of(d2)));
}

/// A destination read from a mapping string has an output port of at most 16
/// and the KiNET UDP port.
pub proof fn lemma_mapping_destination_valid(s: Seq<char>)
    requires
        mapping_model(s) is Ok,
    ensures
        mapping_model(s)->Ok_0.port <= 16,
        mapping_model(s)->Ok_0.socket_port == KINET_UDP_PORT,
{
    reveal(mapping_model);
}

/// Every destination of a built table sits under its own key, has an output
/// port of at most 16 and the KiNET UDP port.
pub proof fn lemma_table_entries_valid(ms: Seq<Seq<char>>)
    requires
        table_model(ms) is Ok,
    ensures
        forall|k: u16| #[trigger]
            table_model(ms)->Ok_0.contains_key(k) ==> {
                let d = table_model(ms)->Ok_0[k];
                &&& key_of(d) == k
                &&& d.port <= 16
                &&& d.socket_port == KINET_UDP_PORT
            },
    decreases ms.len(),
{
    if ms.len() > 0 {
        lemma_table_entries_valid(ms.drop_last());
        lemma_mapping_destination_valid(ms.last());
    }
}

/// Each text comes strictly before the next.
pub open spec fn strictly_ascending(q: Seq<Seq<char>>) -> bool {
    forall|i: int| 0 <= i < q.len() - 1 ==> #[trigger] text_lt(q[i], q[i + 1])
}

/// Relies on `slice::sort_unstable` for `String`: the strings are only
/// reordered, into ascending order, which for strings is the lexicographic
/// order of their code points.
#[verifier::external_body]
fn sort_strings(v: &mut Vec<String>)
    ensures
        texts(final(v)@).to_multiset() == texts(old(v)@).to_multiset(),
        forall|i: int, j: int|
            0 <= i < j < final(v)@.len() ==> !text_lt(#[trigger] final(v)@[j]@, #[trigger] final(v)@[i]@),
{
    v.sort_unstable();
}

/// Sorts the strings and keeps one copy of each text.
pub fn sort_and_dedup(mappings: Vec<String>) -> (r: Vec<String>)
    ensures
        texts(r@) == sorted_distinct(texts(mappings@)),
        strictly_ascending(texts(r@)),
        forall|x: Seq<char>| texts(r@).contains(x) <==> texts(mappings@).contains(x),
{
    broadcast use vstd::seq_lib::group_to_multiset_ensures;

    let mut v = mappings;
    sort_strings(&mut v);
    proof {
        assert forall|x: Seq<char>| texts(v@).contains(x) <==> texts(mappings@).contains(x) by {
            assert(texts(v@).to_multiset().count(x) == texts(mappings@).to_multiset().count(x));
        }
    }
    let mut r: Vec<String> = Vec::new();
    let mut i: usize = 0;
    while i < v.len()
        invariant
            i <= v@.len(),
            forall|a: int, b: int| 0 <= a < b < v@.len() ==> !text_lt(#[trigger] v@[b]@, #[trigger] v@[a]@),
            strictly_ascending(texts(r@)),
            r@.len() == 0 <==> i == 0,
            i > 0 ==> r@.last()@ == v@[i - 1]@,
            forall|x: Seq<char>| texts(r@).contains(x) <==> texts(v@.take(i as int)).contains(x),
        decreases v@.len() - i,
    {
        let ghost before = texts(r@);
        let ghost prefix = texts(v@.take(i as int));
        let ghost item = v@[i as int]@;
        proof {
            assert(texts(v@.take(i + 1)) =~= prefix.push(item));
        }
        if i == 0 || !(v[i] == r[r.len() - 1]) {
            r.push(v[i].clone());
            proof {
                assert(r@.last() == v@[i as int]);
                if i > 0 {
                    lemma_text_lt_total(v@[i - 1]@, v@[i as int]@);
                }
                assert(texts(r@) =~= before.push(item));
                assert forall|x: Seq<char>| texts(r@).contains(x) <==> texts(v@.take(i + 1)).contains(x) by {
                    vstd::seq_lib::lemma_seq_contains_after_push(before, item, x);
                    vstd::seq_lib::lemma_seq_contains_after_push(prefix, item, x);
                }
                assert forall|k: int| 0 <= k < texts(r@).len() - 1 implies #[trigger] text_lt(
                    texts(r@)[k],
                    texts(r@)[k + 1],
                ) by {
                    if k < before.len() - 1 {
                        assert(texts(r@)[k] == before[k] && texts(r@)[k + 1] == before[k + 1]);
                    }
                }
            }
        } else {
            proof {
                assert(texts(r@) == before);
                assert(before[before.len() - 1] == v@[i as int]@);
                assert(before.contains(v@[i as int]@));
                assert forall|x: Seq<char>| texts(r@).contains(x) <==> texts(v@.take(i + 1)).contains(x) by {
                    vstd::seq_lib::lemma_seq_contains_after_push(prefix, item, x);
                }
            }
        }
        i = i + 1;
    }
    proof {
        assert(v@.take(i as int) =~= v@);
        assert(sorted_distinct_of(texts(r@), texts(mappings@)));
        lemma_sorted_distinct_unique(
            texts(r@),
            sorted_distinct(texts(mappings@)),
            texts(mappings@),
        );
    }
    r
}

/// Settings as a user gives them, on the command line or in a file.
#[derive(Debug, Default)]
pub struct UserConfiguration {
    /// The IPv4 address where Art-Net packets are received.
    pub artnet_receive_ip: Option<String>,
    /// The IPv4 address that KiNET packets are sent from.
    pub kinet_send_ip: Option<String>,
    /// Mapping strings `[network:[subnet:[universe:]]]address[:port]`.
    pub mappings: Option<Vec<String>>,
    /// A file that holds further settings.
    pub config_file: Option<String>,
    pub verbose: i8,
    pub quiet: i8,
}

/// The settings the bridge runs with.
pub struct Configuration {
    pub artnet_receive_ip: String,
    pub kinet_send_ip: String,
    pub kinet_destinations: HashMap<u16, KinetDestination>,
    pub verbosity: i8,
}

/// How much the bridge logs, from least to most.
#[derive(Debug, Clone, Copy, PartialEq, Eq, Structural)]
pub enum LogLevel {
    Error,
    Warn,
    Info,
    Debug,
    Trace,
}

/// The log level for a verbosity: below 0 nothing is logged, 0 logs errors,
/// and each step up logs one level more, up to tracing at 4 and above.
pub open spec fn log_level_of(verbosity: i8) -> Option<LogLevel> {
    if verbosity < 0 {
        None
    } else if verbosity == 0 {
        Some(LogLevel::Error)
    } else if verbosity == 1 {
        Some(LogLevel::Warn)
    } else if verbosity == 2 {
        Some(LogLevel::Info)
    } else if verbosity == 3 {
        Some(LogLevel::Debug)
    } else {
        Some(LogLevel::Trace)
    }
}

/// The value of the first of two settings that is given.
pub open spec fn first_given(a: Option<String>, b: Option<String>) -> Option<Seq<char>> {
    match a {
        Some(x) => Some(x@),
        None => match b {
            Some(y) => Some(y@),
            None => None,
        },
    }
}

pub open spec fn given_mappings(c: UserConfiguration) -> Seq<Seq<char>> {
    match c.mappings {
        Some(v) => texts(v@),
        None => Seq::empty(),
    }
}

/// The mapping strings of both sources, command line first.
pub open spec fn merged_mappings(cli: UserConfiguration, file: UserConfiguration) -> Seq<Seq<char>> {
    given_mappings(cli) + given_mappings(file)
}

/// Verbosity starts at 2 and moves by each source's `verbose` and `quiet` counts.
pub open spec fn merged_verbosity(cli: UserConfiguration, file: UserConfiguration) -> int {
    2 + cli.verbose - cli.quiet + file.verbose - file.quiet
}

/// `q` holds each text of `ms` once, in ascending order.
pub open spec fn sorted_distinct_of(q: Seq<Seq<char>>, ms: Seq<Seq<char>>) -> bool {
    &&& strictly_ascending(q)
    &&& forall|x: Seq<char>| q.contains(x) <==> ms.contains(x)
}

/// In a strictly ascending sequence every text comes before each later one.
proof fn lemma_ascending_pairs(q: Seq<Seq<char>>, i: int, j: int)
    requires
        strictly_ascending(q),
        0 <= i < j < q.len(),
    ensures
        text_lt(q[i], q[j]),
    decreases j - i,
{
    if j == i + 1 {
        assert(text_lt(q[i], q[i + 1]));
    } else {
        let k = j - 1;
        lemma_ascending_pairs(q, i, k);
        assert(text_lt(q[k], q[k + 1]));
        lemma_text_lt_transitive(q[i], q[k], q[j]);
    }
}

/// Each collection of texts has exactly one strictly ascending arrangement.
pub proof fn lemma_sorted_distinct_unique(q1: Seq<Seq<char>>, q2: Seq<Seq<char>>, ms: Seq<Seq<char>>)
    requires
        sorted_distinct_of(q1, ms),
        sorted_distinct_of(q2, ms),
    ensures
        q1 == q2,
    decreases q1.len(),
{
    if q1.len() == 0 {
        if q2.len() > 0 {
            assert(q2.contains(q2[0]));
        }
        assert(q1 =~= q2);
    } else {
        assert(q1.contains(q1[0]));
        let j = choose|j: int| 0 <= j < q2.len() && q2[j] == q1[0];
        assert(q2.contains(q2[0]));
        let i = choose|i: int| 0 <= i < q1.len() && q1[i] == q2[0];
        if j > 0 {
            lemma_ascending_pairs(q2, 0, j);
            if i > 0 {
                lemma_ascending_pairs(q1, 0, i);
                lemma_text_lt_transitive(q1[0], q1[i], q1[0]);
            }
            lemma_text_lt_irreflexive(q1[0]);
        }
        let t1 = q1.drop_first();
        let t2 = q2.drop_first();
        assert forall|k: int| 0 <= k < t1.len() - 1 implies #[trigger] text_lt(t1[k], t1[k + 1]) by {
            let m = k + 1;
            assert(text_lt(q1[m], q1[m + 1]));
        }
        assert forall|k: int| 0 <= k < t2.len() - 1 implies #[trigger] text_lt(t2[k], t2[k + 1]) by {
            let m = k + 1;
            assert(text_lt(q2[m], q2[m + 1]));
        }
        assert forall|x: Seq<char>| t1.contains(x) <==> t2.contains(x) by {
            if t1.contains(x) {
                let k = choose|k: int| 0 <= k < t1.len() && t1[k] == x;
                lemma_ascending_pairs(q1, 0, k + 1);
                lemma_text_lt_irreflexive(x);
                assert(q1.contains(x));
                let m = choose|m: int| 0 <= m < q2.len() && q2[m] == x;
                assert(m != 0);
                assert(t2[m - 1] == x);
            }
            if t2.contains(x) {
                let k = choose|k: int| 0 <= k < t2.len() && t2[k] == x;
                lemma_ascending_pairs(q2, 0, k + 1);
                lemma_text_lt_irreflexive(x);
                assert(q2.contains(x));
                let m = choose|m: int| 0 <= m < q1.len() && q1[m] == x;
                assert(m != 0);
                assert(t1[m - 1] == x);
            }
        }
        assert(sorted_distinct_of(t2, t1));
        assert(sorted_distinct_of(t1, t1)) by {
            assert forall|x: Seq<char>| t1.contains(x) <==> t1.contains(x) by {}
        }
        lemma_sorted_distinct_unique(t1, t2, t1);
        assert(j == 0);
        assert(q1[0] == q2[0]);
        assert(q1 =~= seq![q1[0]] + t1);
        assert(q2 =~= seq![q2[0]] + t2);
    }
}

/// The strictly ascending arrangement of the distinct texts of `ms`.
pub open spec fn sorted_distinct(ms: Seq<Seq<char>>) -> Seq<Seq<char>> {
    choose|q: Seq<Seq<char>>| sorted_distinct_of(q, ms)
}

fn take_string(a: Option<String>, b: Option<String>) -> (r: Option<String>)
    ensures
        match r {
            Some(x) => first_given(a, b) == Some(x@),
            None => first_given(a, b) is None,
        },
{
    match a {
        Some(x) => Some(x),
        None => b,
    }
}

fn take_mappings(m: Option<Vec<String>>) -> (r: Vec<String>)
    ensures
        texts(r@) == match m {
            Some(v) => texts(v@),
            None => Seq::<Seq<char>>::empty(),
        },
{
    match m {
        Some(v) => v,
        None => {
            let r: Vec<String> = Vec::new();
            assert(texts(r@) =~= Seq::<Seq<char>>::empty());
            r
        },
    }
}

impl Configuration {
    /// The log level that this configuration's verbosity asks for.
    pub fn get_log_level(&self) -> (r: Option<LogLevel>)
        ensures
            r == log_level_of(self.verbosity),
    {
        if self.verbosity < 0 {
            None
        } else if self.verbosity == 0 {
            Some(LogLevel::Error)
        } else if self.verbosity == 1 {
            Some(LogLevel::Warn)
        } else if self.verbosity == 2 {
            Some(LogLevel::Info)
        } else if self.verbosity == 3 {
            Some(LogLevel::Debug)
        } else {
            Some(LogLevel::Trace)
        }
    }

    /// Merges the command-line settings with those of a file: a single value
    /// comes from the command line where given there, mapping strings come from
    /// both, and duplicates among them are dropped before they are parsed in
    /// ascending order.
    pub fn from_user_configs(cli_config: UserConfiguration, file_config: UserConfiguration) -> (r: Result<
        Self,
        ConfigError,
    >)
        requires
            i8::MIN <= merged_verbosity(cli_config, file_config) <= i8::MAX,
        ensures
            first_given(cli_config.artnet_receive_ip, file_config.artnet_receive_ip) is None ==> r
                matches Err(ConfigError::NoArtnetAddress),
            first_given(cli_config.artnet_receive_ip, file_config.artnet_receive_ip) is Some
                && first_given(cli_config.kinet_send_ip, file_config.kinet_send_ip) is None ==> r
                matches Err(ConfigError::NoKinetAddress),
            first_given(cli_config.artnet_receive_ip, file_config.artnet_receive_ip) is Some
                && first_given(cli_config.kinet_send_ip, file_config.kinet_send_ip) is Some
                && given_mappings(cli_config).len() + given_mappings(file_config).len() == 0 ==> r
                matches Err(ConfigError::NoMappings),
            first_given(cli_config.artnet_receive_ip, file_config.artnet_receive_ip) is Some
                && first_given(cli_config.kinet_send_ip, file_config.kinet_send_ip) is Some
                && given_mappings(cli_config).len() + given_mappings(file_config).len() > 0
                ==> match (r, table_model(sorted_distinct(merged_mappings(cli_config, file_config)))) {
                (Ok(c), Ok(m)) => {
                    &&& Some(c.artnet_receive_ip@) == first_given(
                        cli_config.artnet_receive_ip,
                        file_config.artnet_receive_ip,
                    )
                    &&& Some(c.kinet_send_ip@) == first_given(
                        cli_config.kinet_send_ip,
                        file_config.kinet_send_ip,
                    )
                    &&& c.verbosity == merged_verbosity(cli_config, file_config)
                    &&& table_matches(c.kinet_destinations@, m)
                },
                (Err(e), Err((i, reason))) => {
                    &&& 0 <= i < sorted_distinct(merged_mappings(cli_config, file_config)).len()
                    &&& reports_mapping(
                        e,
                        sorted_distinct(merged_mappings(cli_config, file_config))[i],
                        reason,
                    )
                },
                _ => false,
            },
    {
        let ghost cli_mappings = given_mappings(cli_config);
        let ghost file_mappings = given_mappings(file_config);
        let ghost verbosity = merged_verbosity(cli_config, file_config);
        let artnet_address = match take_string(cli_config.artnet_receive_ip, file_config.artnet_receive_ip) {
            Some(a) => a,
            None => {
                return Err(ConfigError::NoArtnetAddress);
            },
        };
        let kinet_address = match take_string(cli_config.kinet_send_ip, file_config.kinet_send_ip) {
            Some(a) => a,
            None => {
                return Err(ConfigError::NoKinetAddress);
            },
        };
        let mut mappings = take_mappings(cli_config.mappings);
        let mut more = take_mappings(file_config.mappings);
        let ghost before = mappings@;
        let ghost extra = more@;
        mappings.append(&mut more);
        proof {
            assert(mappings@ == before + extra);
            assert(texts(mappings@) =~= cli_mappings + file_mappings);
        }
        if mappings.len() == 0 {
            return Err(ConfigError::NoMappings);
        }
        let mappings = sort_and_dedup(mappings);
        let ghost q = texts(mappings@);
        proof {
            let merged = merged_mappings(cli_config, file_config);
            assert(merged == cli_mappings + file_mappings);
            assert(sorted_distinct_of(q, merged));
            lemma_sorted_distinct_unique(q, sorted_distinct(merged), merged);
        }
        let level = 2i32 + cli_config.verbose as i32 - cli_config.quiet as i32 + file_config.verbose as i32
            - file_config.quiet as i32;
        let destinations = match mappings_to_destinations(mappings) {
            Ok(d) => d,
            Err(e) => {
                return Err(e);
            },
        };
        Ok(
            Configuration {
                artnet_receive_ip: artnet_address,
                kinet_send_ip: kinet_address,
                kinet_destinations: destinations,
                verbosity: level as i8,
            },
        )
    }
}

} // verus!
