//! Parsing one record of a `/proc/net` socket table.
//!
//! A record is a line of whitespace-separated fields. Field 1 is the local
//! endpoint, field 2 the remote one, field 3 the state (a hexadecimal byte),
//! field 7 the owner's uid and field 9 the inode, both in decimal.
use vstd::prelude::*;
use crate::scan::{
    byte_format, byte_pieces, endpoint4_format, endpoint4_pieces, endpoint6_format,
    endpoint6_pieces, lemma_format_field_counts, lemma_scan_len, scan, scan_range, scan_usize,
    scan_usize_range,
};
use crate::socketinfo::linuxsocket::{
    component_texts, default_endpoint, displayable, AddressType, EndPoint,
    EndPointView, Protocol, SocketInfo,
};
use crate::text::{chars_of, lemma_join_len, split_words, word_bounds};

verus! {

broadcast use vstd::string::group_string_axioms;

pub const LOCAL_SOCKET: usize = 1;

pub const REMOTE_SOCKET: usize = 2;

pub const SOCKET_STATE: usize = 3;

pub const UID: usize = 7;

pub const INODE: usize = 9;

/// A field of a record did not have the expected form.
#[derive(Debug, PartialEq, Eq, Structural, Clone, Copy)]
pub enum ParseError {
    MatchFailed,
}

// ---------------------------------------------------------------------------
// What a record means
// ---------------------------------------------------------------------------

/// The name of a TCP state code, as the kernel's `tcp_states.h` lists them.
pub open spec fn state_name(code: nat) -> Seq<char> {
    if code == 0x01 {
        "ESTABLISHED"@
    } else if code == 0x02 {
        "SYN_SENT"@
    } else if code == 0x03 {
        "SYN_RECV"@
    } else if code == 0x04 {
        "FIN_WAIT1"@
    } else if code == 0x05 {
        "FIN_WAIT2"@
    } else if code == 0x06 {
        "TIME_WAIT"@
    } else if code == 0x07 {
        "CLOSE"@
    } else if code == 0x08 {
        "CLOSE_WAIT"@
    } else if code == 0x09 {
        "LAST_ACK"@
    } else if code == 0x0A {
        "LISTENING"@
    } else if code == 0x0B {
        "CLOSING"@
    } else if code == 0x0C {
        "NEW_SYN_RECV"@
    } else {
        "UNKNOWN"@
    }
}

/// The state code of a record: its field 3 read as one hexadecimal byte.
pub open spec fn state_code(words: Seq<Seq<char>>) -> Option<nat> {
    match scan(byte_format(), words[SOCKET_STATE as int]) {
        Some(v) => Some(v[0]),
        None => None,
    }
}

/// The records that can be read without running past their last field: at
/// least four fields, and ten when the state field reads.
pub open spec fn well_sized(data: Seq<char>) -> bool {
    let w = split_words(data);
    &&& w.len() > SOCKET_STATE
    &&& state_code(w) is Some ==> w.len() > INODE
}

/// Whether the state, inode and uid fields of a record all read.
pub open spec fn common_fields_read(data: Seq<char>) -> bool {
    let w = split_words(data);
    &&& state_code(w) is Some
    &&& scan_usize(w[INODE as int]) is Some
    &&& scan_usize(w[UID as int]) is Some
}

/// An IPv4 endpoint field: four bytes of the address, least significant
/// first, then the port.
pub open spec fn endpoint4(w: Seq<char>) -> Option<EndPointView> {
    match scan(endpoint4_format(), w) {
        Some(v) => Some(
            EndPointView {
                port: v[4] as u16,
                address: seq![v[3] as u16, v[2] as u16, v[1] as u16, v[0] as u16],
                address_type: AddressType::IPV4,
            },
        ),
        None => None,
    }
}

/// `x` with its two bytes swapped.
pub open spec fn swap_bytes(x: u16) -> u16 {
    ((x % 256) * 256 + x / 256) as u16
}

/// A 16-bit word in big-endian (network) order, given the host's order:
/// kept on a big-endian host, byte-swapped on a little-endian one.
pub open spec fn to_network_order(x: u16, big_endian_host: bool) -> u16 {
    if big_endian_host {
        x
    } else {
        swap_bytes(x)
    }
}

/// An IPv6 endpoint field: eight 16-bit words, each converted to big-endian
/// order from the host's order, then the port.
pub open spec fn endpoint6(w: Seq<char>, big_endian_host: bool) -> Option<EndPointView> {
    match scan(endpoint6_format(), w) {
        Some(v) => Some(
            EndPointView {
                port: v[8] as u16,
                address: Seq::new(8, |i: int| to_network_order(v[i] as u16, big_endian_host)),
                address_type: AddressType::IPV6,
            },
        ),
        None => None,
    }
}

pub open spec fn is_ipv4(proto: Protocol) -> bool {
    proto == Protocol::TCP || proto == Protocol::UDP || proto == Protocol::RAW
}

/// Whether endpoint field `w` reads for `proto`.
pub open spec fn endpoint_reads(proto: Protocol, w: Seq<char>) -> bool {
    if is_ipv4(proto) {
        endpoint4(w) is Some
    } else {
        scan(endpoint6_format(), w) is Some
    }
}

/// What endpoint field `w` reads as for `proto`, on a host of the given
/// byte order.
pub open spec fn endpoint_of(proto: Protocol, big_endian_host: bool, w: Seq<char>) -> Option<
    EndPointView,
> {
    if is_ipv4(proto) {
        endpoint4(w)
    } else {
        endpoint6(w, big_endian_host)
    }
}

/// Whether a whole record reads for `proto`.
pub open spec fn record_reads(data: Seq<char>, proto: Protocol) -> bool {
    let w = split_words(data);
    &&& common_fields_read(data)
    &&& endpoint_reads(proto, w[LOCAL_SOCKET as int])
    &&& endpoint_reads(proto, w[REMOTE_SOCKET as int])
}

/// Whether `info` holds the state, inode and uid that record `data` gives.
pub open spec fn common_fields_match(data: Seq<char>, info: SocketInfo) -> bool {
    let w = split_words(data);
    &&& info.state@ == state_name(state_code(w)->Some_0)
    &&& scan_usize(w[INODE as int]) == Some(info.inode as nat)
    &&& scan_usize(w[UID as int]) == Some(info.uid as nat)
}

// ---------------------------------------------------------------------------
// Reading the fields
// ---------------------------------------------------------------------------

/// `u16::to_be`: converts from the host's byte order to big-endian, so the
/// result is `x` on a big-endian host and `x` with its bytes swapped on a
/// little-endian one. Which of the two holds is left unsaid: it depends on
/// the machine.
#[verifier::external_body]
fn u16_to_be(x: u16) -> (r: u16)
    ensures
        r == x || r == swap_bytes(x),
{
    x.to_be()
}

fn get_entry_usize(chars: &Vec<char>, bound: (usize, usize)) -> (r: Result<usize, ParseError>)
    requires
        bound.0 <= bound.1 <= chars.len(),
    ensures
        match r {
            Ok(v) => scan_usize(chars@.subrange(bound.0 as int, bound.1 as int)) == Some(v as nat),
            Err(_) => scan_usize(chars@.subrange(bound.0 as int, bound.1 as int)) is None,
        },
{
    match scan_usize_range(chars, bound.0, bound.1) {
        Some(v) => Ok(v),
        None => Err(ParseError::MatchFailed),
    }
}

/// The words of a record, with the bounds that locate them in `chars`.
pub open spec fn bounds_locate(chars: Seq<char>, bounds: Seq<(usize, usize)>) -> bool {
    &&& bounds.len() == split_words(chars).len()
    &&& forall|k: int|
        0 <= k < bounds.len() ==> {
            &&& (#[trigger] bounds[k]).0 <= bounds[k].1 <= chars.len()
            &&& chars.subrange(bounds[k].0 as int, bounds[k].1 as int) == split_words(chars)[k]
        }
}

fn get_socket_inode(chars: &Vec<char>, bounds: &Vec<(usize, usize)>) -> (r: Result<usize, ParseError>)
    requires
        bounds_locate(chars@, bounds@),
        bounds.len() > INODE,
    ensures
        match r {
            Ok(v) => scan_usize(split_words(chars@)[INODE as int]) == Some(v as nat),
            Err(_) => scan_usize(split_words(chars@)[INODE as int]) is None,
        },
{
    get_entry_usize(chars, bounds[INODE])
}

fn get_socket_uid(chars: &Vec<char>, bounds: &Vec<(usize, usize)>) -> (r: Result<usize, ParseError>)
    requires
        bounds_locate(chars@, bounds@),
        bounds.len() > UID,
    ensures
        match r {
            Ok(v) => scan_usize(split_words(chars@)[UID as int]) == Some(v as nat),
            Err(_) => scan_usize(split_words(chars@)[UID as int]) is None,
        },
{
    get_entry_usize(chars, bounds[UID])
}

/// The name of a state code.
fn state_name_of(code: u64) -> (r: String)
    ensures
        r@ == state_name(code as nat),
{
    let name = if code == 0x01 {
        "ESTABLISHED"
    } else if code == 0x02 {
        "SYN_SENT"
    } else if code == 0x03 {
        "SYN_RECV"
    } else if code == 0x04 {
        "FIN_WAIT1"
    } else if code == 0x05 {
        "FIN_WAIT2"
    } else if code == 0x06 {
        "TIME_WAIT"
    } else if code == 0x07 {
        "CLOSE"
    } else if code == 0x08 {
        "CLOSE_WAIT"
    } else if code == 0x09 {
        "LAST_ACK"
    } else if code == 0x0A {
        "LISTENING"
    } else if code == 0x0B {
        "CLOSING"
    } else if code == 0x0C {
        "NEW_SYN_RECV"
    } else {
        "UNKNOWN"
    };
    name.to_string()
}

fn get_socket_state(chars: &Vec<char>, bounds: &Vec<(usize, usize)>) -> (r: Result<
    String,
    ParseError,
>)
    requires
        bounds_locate(chars@, bounds@),
        bounds.len() > SOCKET_STATE,
    ensures
        match r {
            Ok(name) => state_code(split_words(chars@)) is Some && name@ == state_name(
                state_code(split_words(chars@))->Some_0,
            ),
            Err(_) => state_code(split_words(chars@)) is None,
        },
{
    let b = bounds[SOCKET_STATE];
    let pieces = byte_pieces();
    match scan_range(&pieces, chars, b.0, b.1) {
        Some(v) => {
            proof {
                lemma_scan_len(byte_format(), chars@.subrange(b.0 as int, b.1 as int));
                lemma_format_field_counts();
            }
            Ok(state_name_of(v[0]))
        },
        None => Err(ParseError::MatchFailed),
    }
}

fn parse_socket_endpoint(chars: &Vec<char>, bound: (usize, usize)) -> (r: Result<
    EndPoint,
    ParseError,
>)
    requires
        bound.0 <= bound.1 <= chars.len(),
    ensures
        match r {
            Ok(e) => endpoint4(chars@.subrange(bound.0 as int, bound.1 as int)) == Some(e@),
            Err(_) => endpoint4(chars@.subrange(bound.0 as int, bound.1 as int)) is None,
        },
{
    let ghost w = chars@.subrange(bound.0 as int, bound.1 as int);
    let pieces = endpoint4_pieces();
    match scan_range(&pieces, chars, bound.0, bound.1) {
        Some(v) => {
            proof {
                lemma_scan_len(endpoint4_format(), w);
                lemma_format_field_counts();
            }
            // the address is stored least significant byte first
            let address = vec![v[3] as u16, v[2] as u16, v[1] as u16, v[0] as u16];
            let e = EndPoint::new(address, v[4] as u16, AddressType::IPV4);
            assert(e@.address =~= endpoint4(w)->Some_0.address);
            Ok(e)
        },
        None => Err(ParseError::MatchFailed),
    }
}

/// Converts a word to big-endian order from the host's order.
fn to_network(x: u16, big_endian_host: bool) -> (r: u16)
    ensures
        r == to_network_order(x, big_endian_host),
{
    if big_endian_host {
        x
    } else {
        (x % 256) * 256 + x / 256
    }
}

/// Whether this host stores integers most significant byte first: whether
/// `to_be` keeps the value 1 as it is.
fn host_is_big_endian() -> bool {
    u16_to_be(1) == 1
}

fn parse_socket_endpoint6(chars: &Vec<char>, bound: (usize, usize), big_endian_host: bool) -> (r:
    Result<EndPoint, ParseError>)
    requires
        bound.0 <= bound.1 <= chars.len(),
    ensures
        match r {
            Ok(e) => endpoint6(chars@.subrange(bound.0 as int, bound.1 as int), big_endian_host)
                == Some(e@),
            Err(_) => endpoint6(
                chars@.subrange(bound.0 as int, bound.1 as int),
                big_endian_host,
            ) is None,
        },
{
    let ghost w = chars@.subrange(bound.0 as int, bound.1 as int);
    let pieces = endpoint6_pieces();
    match scan_range(&pieces, chars, bound.0, bound.1) {
        Some(v) => {
            proof {
                lemma_scan_len(endpoint6_format(), w);
                lemma_format_field_counts();
            }
            let address = vec![
                to_network(v[0] as u16, big_endian_host),
                to_network(v[1] as u16, big_endian_host),
                to_network(v[2] as u16, big_endian_host),
                to_network(v[3] as u16, big_endian_host),
                to_network(v[4] as u16, big_endian_host),
                to_network(v[5] as u16, big_endian_host),
                to_network(v[6] as u16, big_endian_host),
                to_network(v[7] as u16, big_endian_host),
            ];
            let e = EndPoint::new(address, v[8] as u16, AddressType::IPV6);
            assert(e@.address =~= endpoint6(w, big_endian_host)->Some_0.address);
            Ok(e)
        },
        None => Err(ParseError::MatchFailed),
    }
}

/// Reads an endpoint field: IPv4 for TCP, UDP and RAW, IPv6 otherwise.
fn parse_endpoint_for(
    proto: Protocol,
    big_endian_host: bool,
    chars: &Vec<char>,
    bound: (usize, usize),
) -> (r: Result<EndPoint, ParseError>)
    requires
        bound.0 <= bound.1 <= chars.len(),
    ensures
        match r {
            Ok(e) => endpoint_of(
                proto,
                big_endian_host,
                chars@.subrange(bound.0 as int, bound.1 as int),
            ) == Some(e@),
            Err(_) => !endpoint_reads(proto, chars@.subrange(bound.0 as int, bound.1 as int)),
        },
{
    match proto {
        Protocol::TCP | Protocol::UDP | Protocol::RAW => parse_socket_endpoint(chars, bound),
        Protocol::TCP6 | Protocol::UDP6 => parse_socket_endpoint6(chars, bound, big_endian_host),
    }
}

fn common_entry(chars: &Vec<char>, bounds: &Vec<(usize, usize)>) -> (r: Result<
    SocketInfo,
    ParseError,
>)
    requires
        bounds_locate(chars@, bounds@),
        well_sized(chars@),
    ensures
        r is Ok <==> common_fields_read(chars@),
        r matches Ok(info) ==> {
            &&& info.protocol == Protocol::TCP
            &&& info.local_endpoint@ == default_endpoint()
            &&& info.remote_endpoint@ == default_endpoint()
            &&& common_fields_match(chars@, info)
        },
{
    let socket_info = SocketInfo::default();
    let s_state = get_socket_state(chars, bounds)?;
    let inode_num = get_socket_inode(chars, bounds)?;
    let user_id = get_socket_uid(chars, bounds)?;
    Ok(SocketInfo { state: s_state, inode: inode_num, uid: user_id, ..socket_info })
}

/// Whether a record can be read without running past its last field (see
/// `well_sized`): callers test this before `build` and `build_common_entry`.
pub fn is_well_sized(socket_data: &str) -> (r: bool)
    ensures
        r == well_sized(socket_data@),
{
    let chars = chars_of(socket_data);
    let bounds = word_bounds(&chars);
    if bounds.len() <= SOCKET_STATE {
        return false;
    }
    if bounds.len() > INODE {
        return true;
    }
    let state = get_socket_state(&chars, &bounds);
    state.is_err()
}

/// Reads the state, inode and uid of a record; the other fields keep their
/// defaults.
pub fn build_common_entry(socket_data: &str) -> (r: Result<SocketInfo, ParseError>)
    requires
        well_sized(socket_data@),
    ensures
        r is Ok <==> common_fields_read(socket_data@),
        r matches Ok(info) ==> {
            &&& info.protocol == Protocol::TCP
            &&& info.local_endpoint@ == default_endpoint()
            &&& info.remote_endpoint@ == default_endpoint()
            &&& common_fields_match(socket_data@, info)
        },
{
    let chars = chars_of(socket_data);
    let bounds = word_bounds(&chars);
    common_entry(&chars, &bounds)
}

/// Every endpoint that a record reads as can be written by
/// `EndPoint::to_string`: IPv4 endpoints have four components, IPv6 ones
/// eight, whose colon-joined text is never empty.
pub proof fn lemma_read_endpoints_are_displayable(
    proto: Protocol,
    big_endian_host: bool,
    w: Seq<char>,
    e: EndPointView,
)
    requires
        endpoint_of(proto, big_endian_host, w) == Some(e),
    ensures
        displayable(e),
{
    if !is_ipv4(proto) {
        lemma_join_len(component_texts(e), seq![':']);
    }
}

/// An endpoint field reads as one endpoint for a protocol and a host byte
/// order; for IPv4 protocols the byte order does not matter, and for IPv6
/// the reading with each order is the other with every word byte-swapped.
pub proof fn lemma_endpoint_reading_determined(
    proto: Protocol,
    big_endian_host: bool,
    w: Seq<char>,
    e1: EndPointView,
    e2: EndPointView,
)
    requires
        endpoint_of(proto, big_endian_host, w) == Some(e1),
        endpoint_of(proto, big_endian_host, w) == Some(e2),
    ensures
        e1 == e2,
        is_ipv4(proto) ==> endpoint_of(proto, !big_endian_host, w) == Some(e1),
        !is_ipv4(proto) ==> (endpoint_of(proto, !big_endian_host, w) matches Some(e3) && {
            &&& e3.address.len() == 8
            &&& e3.port == e1.port
            &&& forall|i: int| 0 <= i < 8 ==> #[trigger] e3.address[i] == swap_bytes(e1.address[i])
        }),
{
    if !is_ipv4(proto) {
        let e3 = endpoint_of(proto, !big_endian_host, w)->Some_0;
        assert forall|i: int| 0 <= i < 8 implies #[trigger] e3.address[i] == swap_bytes(
            e1.address[i],
        ) by {
            let x = e1.address[i];
            assert(swap_bytes(swap_bytes(x)) == x) by (nonlinear_arith)
                requires
                    x <= 65535,
            ;
        }
    }
}

/// `SocketInfoBuilder::build` and `build_common_entry` agree: a record that
/// the first reads also reads with the second, and the two give it the same
/// state, inode and uid.
pub proof fn lemma_build_agrees_with_common_entry(
    data: Seq<char>,
    proto: Protocol,
    built: SocketInfo,
    common: SocketInfo,
)
    requires
        record_reads(data, proto),
        common_fields_match(data, built),
        common_fields_match(data, common),
    ensures
        common_fields_read(data),
        built.state@ == common.state@,
        built.inode == common.inode,
        built.uid == common.uid,
{
}

/// Builds a `SocketInfo` from one record of a `/proc/net` file.
pub struct SocketInfoBuilder {
    socket_data: String,
    protocol: Protocol,
}

impl SocketInfoBuilder {
    pub closed spec fn data(&self) -> Seq<char> {
        self.socket_data@
    }

    pub closed spec fn protocol(&self) -> Protocol {
        self.protocol
    }

    pub fn new(data: String, proto: Protocol) -> (r: Self)
        ensures
            r.data() == data@,
            r.protocol() == proto,
    {
        SocketInfoBuilder { socket_data: data, protocol: proto }
    }

    /// Reads the record on a host of the given byte order: state, inode and
    /// uid, then the local and remote endpoints, which are IPv4 for TCP, UDP
    /// and RAW and IPv6 otherwise, IPv6 words converted to big-endian order
    /// from `big_endian_host`'s order.
    pub fn build_with_byte_order(self, big_endian_host: bool) -> (r: Result<SocketInfo, ParseError>)
        requires
            well_sized(self.data()),
        ensures
            r is Ok <==> record_reads(self.data(), self.protocol()),
            r matches Ok(info) ==> {
                let w = split_words(self.data());
                &&& info.protocol == self.protocol()
                &&& common_fields_match(self.data(), info)
                &&& endpoint_of(self.protocol(), big_endian_host, w[LOCAL_SOCKET as int]) == Some(
                    info.local_endpoint@,
                )
                &&& endpoint_of(self.protocol(), big_endian_host, w[REMOTE_SOCKET as int]) == Some(
                    info.remote_endpoint@,
                )
            },
    {
        let chars = chars_of(self.socket_data.as_str());
        let bounds = word_bounds(&chars);
        let base_socket_info = common_entry(&chars, &bounds)?;
        let local_endpoint = parse_endpoint_for(
            self.protocol,
            big_endian_host,
            &chars,
            bounds[LOCAL_SOCKET],
        )?;
        let remote_endpoint = parse_endpoint_for(
            self.protocol,
            big_endian_host,
            &chars,
            bounds[REMOTE_SOCKET],
        )?;
        Ok(SocketInfo { protocol: self.protocol, local_endpoint, remote_endpoint, ..base_socket_info })
    }

    /// Reads the record on this host: `build_with_byte_order` with the host's
    /// byte order, which `u16::to_be` reveals. Which order that is cannot be
    /// stated here (it depends on the machine); both endpoints are read with
    /// the same one.
    pub fn build(self) -> (r: Result<SocketInfo, ParseError>)
        requires
            well_sized(self.data()),
        ensures
            r is Ok <==> record_reads(self.data(), self.protocol()),
            r matches Ok(info) ==> {
                let w = split_words(self.data());
                &&& info.protocol == self.protocol()
                &&& common_fields_match(self.data(), info)
                &&& exists|big_endian_host: bool|
                    {
                        &&& #[trigger] endpoint_of(
                            self.protocol(),
                            big_endian_host,
                            w[LOCAL_SOCKET as int],
                        ) == Some(info.local_endpoint@)
                        &&& endpoint_of(self.protocol(), big_endian_host, w[REMOTE_SOCKET as int])
                            == Some(info.remote_endpoint@)
                    }
            },
    {
        let big_endian_host = host_is_big_endian();
        self.build_with_byte_order(big_endian_host)
    }
}

} // verus!
