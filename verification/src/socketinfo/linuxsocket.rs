//! The socket record: protocol, endpoints, state, inode and owner.
use vstd::prelude::*;
use crate::socketinfo::linuxsocket_builder::SocketInfoBuilder;
use crate::text::{
    all_ascii_digits, all_hex_digits, decimal, digits_value, free_of, join, lemma_digits_of,
    lemma_split_on_concat, lemma_split_on_free, lemma_split_on_join, lower_hex, push_digits,
    split_on,
};

verus! {

broadcast use vstd::string::group_string_axioms;

/// The kind of socket a `/proc/net` file lists.
#[derive(Debug, PartialEq, Eq, Structural, Hash, Clone, Ord, PartialOrd, Copy)]
pub enum Protocol {
    TCP,
    UDP,
    TCP6,
    UDP6,
    RAW,
}

#[derive(Debug, PartialEq, Eq, Structural, Clone, Copy)]
pub enum AddressType {
    IPV4,
    IPV6,
}

impl Default for AddressType {
    fn default() -> (r: AddressType)
        ensures
            r == AddressType::IPV4,
    {
        AddressType::IPV4
    }
}

/// The abstract value of an endpoint.
pub struct EndPointView {
    pub port: u16,
    pub address: Seq<u16>,
    pub address_type: AddressType,
}

/// An address and a port.
#[derive(PartialEq, Debug)]
pub struct EndPoint {
    port: u16,
    address: Vec<u16>,
    address_type: AddressType,
}

impl View for EndPoint {
    type V = EndPointView;

    closed spec fn view(&self) -> EndPointView {
        EndPointView { port: self.port, address: self.address@, address_type: self.address_type }
    }
}

/// The default endpoint: port 0, no address, IPv4.
pub open spec fn default_endpoint() -> EndPointView {
    EndPointView { port: 0, address: seq![], address_type: AddressType::IPV4 }
}

impl Default for EndPoint {
    fn default() -> (r: EndPoint)
        ensures
            r@ == default_endpoint(),
    {
        EndPoint { port: 0, address: Vec::new(), address_type: AddressType::IPV4 }
    }
}

/// The text of one address component: decimal for IPv4, lower-case
/// hexadecimal for IPv6 with a zero component left empty.
pub open spec fn component_text(t: AddressType, x: u16) -> Seq<char> {
    match t {
        AddressType::IPV4 => decimal(x as nat),
        AddressType::IPV6 => if x == 0 {
            seq![]
        } else {
            lower_hex(x as nat)
        },
    }
}

pub open spec fn component_texts(e: EndPointView) -> Seq<Seq<char>> {
    e.address.map_values(|x: u16| component_text(e.address_type, x))
}

/// Whether an endpoint can be written: four components are joined with dots;
/// any other number with colons, of which the last character is then dropped,
/// so that joined text must not be empty.
pub open spec fn displayable(e: EndPointView) -> bool {
    e.address.len() == 4 || join(component_texts(e), seq![':']).len() > 0
}

/// The text of an endpoint: `a.b.c.d:port` for four components, otherwise
/// the colon-joined components without their last character, `:`, and the
/// port.
pub open spec fn endpoint_text(e: EndPointView) -> Seq<char> {
    if e.address.len() == 4 {
        join(component_texts(e), seq!['.']) + seq![':'] + decimal(e.port as nat)
    } else {
        join(component_texts(e), seq![':']).drop_last() + seq![':'] + decimal(e.port as nat)
    }
}

/// The text of an address component: the number's digits in decimal (IPv4)
/// or hexadecimal (IPv6), and nothing for an IPv6 zero. It holds no `:` or
/// `.`.
pub proof fn lemma_component_text(t: AddressType, x: u16)
    ensures
        free_of(component_text(t, x), ':'),
        free_of(component_text(t, x), '.'),
        t == AddressType::IPV4 ==> component_text(t, x).len() > 0 && all_ascii_digits(
            component_text(t, x),
        ) && digits_value(component_text(t, x), 10) == x,
        t == AddressType::IPV6 && x != 0 ==> component_text(t, x).len() > 0 && all_hex_digits(
            component_text(t, x),
        ) && digits_value(component_text(t, x), 16) == x,
        t == AddressType::IPV6 && x == 0 ==> component_text(t, x).len() == 0,
{
    let ct = component_text(t, x);
    match t {
        AddressType::IPV4 => lemma_digits_of(x as nat, 10),
        AddressType::IPV6 => {
            if x != 0 {
                lemma_digits_of(x as nat, 16);
            }
        },
    }
    assert forall|j: int| 0 <= j < ct.len() implies #[trigger] ct[j] != ':' && ct[j] != '.' by {
        assert(all_hex_digits(ct));
    }
}

/// How the text of an endpoint splits into fields. With four components, the
/// `.`-separated pieces are the components in address order, the last one
/// followed by `:` and the port. Otherwise the `:`-separated pieces are the
/// components in address order, the last one missing its last character
/// (and gone when that leaves it empty), then the port.
pub proof fn lemma_endpoint_text_fields(e: EndPointView)
    requires
        displayable(e),
    ensures
        e.address.len() == 4 ==> {
            let q = split_on(endpoint_text(e), '.');
            &&& q.len() == 4
            &&& forall|i: int|
                0 <= i < 3 ==> #[trigger] q[i] == component_text(e.address_type, e.address[i])
            &&& q[3] == component_text(e.address_type, e.address[3]) + seq![':'] + decimal(
                e.port as nat,
            )
        },
        e.address.len() != 4 ==> {
            let n = e.address.len();
            let p = split_on(endpoint_text(e), ':');
            let last = component_text(e.address_type, e.address[n - 1]);
            &&& n >= 1
            &&& p.last() == decimal(e.port as nat)
            &&& forall|i: int|
                0 <= i < n - 1 ==> #[trigger] p[i] == component_text(e.address_type, e.address[i])
            &&& last.len() > 0 ==> p.len() == n + 1 && p[n - 1] == last.drop_last()
            &&& last.len() == 0 ==> p.len() == n
        },
{
    let cs = component_texts(e);
    let n = e.address.len();
    let port = decimal(e.port as nat);
    lemma_digits_of(e.port as nat, 10);
    assert forall|j: int| 0 <= j < port.len() implies #[trigger] port[j] != ':' && port[j] != '.' by {
        assert(all_hex_digits(port));
    }
    assert forall|i: int| 0 <= i < n implies free_of(#[trigger] cs[i], ':') && free_of(cs[i], '.') by {
        lemma_component_text(e.address_type, e.address[i]);
    }
    if n == 4 {
        let init = cs.drop_last();
        assert forall|i: int| 0 <= i < init.len() implies free_of(#[trigger] init[i], '.') by {
            assert(init[i] == cs[i]);
        }
        lemma_split_on_join(init, '.');
        let y = cs[3] + seq![':'] + port;
        assert(free_of(y, '.')) by {
            assert(free_of(cs[3], '.'));
            assert forall|j: int| 0 <= j < y.len() implies #[trigger] y[j] != '.' by {
                if j < cs[3].len() {
                    assert(y[j] == cs[3][j]);
                } else if j > cs[3].len() {
                    assert(y[j] == port[j - cs[3].len() - 1]);
                }
            }
        }
        lemma_split_on_free(y, '.');
        assert(endpoint_text(e) =~= join(init, seq!['.']) + seq!['.'] + y);
        lemma_split_on_concat(join(init, seq!['.']), y, '.');
        assert(split_on(endpoint_text(e), '.') =~= init + seq![y]);
    } else {
        assert(n >= 1) by {
            if n == 0 {
                assert(join(cs, seq![':']) =~= Seq::<char>::empty());
            }
        }
        lemma_split_on_free(port, ':');
        let x = join(cs, seq![':']).drop_last();
        assert(endpoint_text(e) =~= x + seq![':'] + port);
        lemma_split_on_concat(x, port, ':');
        let last = cs[n - 1];
        assert(last == component_text(e.address_type, e.address[n - 1]));
        if n == 1 {
            assert(join(cs, seq![':']) == cs[0]);
            assert(free_of(x, ':')) by {
                assert forall|j: int| 0 <= j < x.len() implies #[trigger] x[j] != ':' by {
                    assert(x[j] == cs[0][j]);
                }
            }
            lemma_split_on_free(x, ':');
        } else {
            let init = cs.drop_last();
            assert forall|i: int| 0 <= i < init.len() implies free_of(#[trigger] init[i], ':') by {
                assert(init[i] == cs[i]);
            }
            lemma_split_on_join(init, ':');
            assert(cs.last() == last);
            if last.len() > 0 {
                let l1 = last.drop_last();
                assert(x =~= join(init, seq![':']) + seq![':'] + l1);
                assert(free_of(l1, ':')) by {
                    assert forall|j: int| 0 <= j < l1.len() implies #[trigger] l1[j] != ':' by {
                        assert(l1[j] == last[j]);
                    }
                }
                lemma_split_on_free(l1, ':');
                lemma_split_on_concat(join(init, seq![':']), l1, ':');
            } else {
                assert(x =~= join(init, seq![':']));
            }
        }
    }
}

impl EndPoint {
    pub fn new(address: Vec<u16>, port: u16, address_type: AddressType) -> (r: EndPoint)
        ensures
            r@ == (EndPointView { port, address: address@, address_type }),
    {
        EndPoint { port, address, address_type }
    }

    /// Whether `to_string` can write the endpoint (see `displayable`).
    pub fn is_displayable(&self) -> (r: bool)
        ensures
            r == displayable(self@),
    {
        if self.address.len() == 4 {
            return true;
        }
        let ghost parts = component_texts(self@);
        let mut i: usize = 0;
        while i < self.address.len()
            invariant
                i <= self.address.len(),
                self.address.len() != 4,
                parts == component_texts(self@),
                join(parts.take(i as int), seq![':']).len() == 0,
            decreases self.address.len() - i,
        {
            proof {
                let t = parts.take(i + 1);
                assert(t.drop_last() =~= parts.take(i as int));
                assert(parts[i as int] == component_text(self@.address_type, self.address@[i as int]));
                if i == 0 {
                    assert(parts.take(0) =~= Seq::<Seq<char>>::empty());
                }
            }
            if i > 0 {
                return true;
            }
            let x = self.address[i];
            match self.address_type {
                AddressType::IPV4 => {
                    proof {
                        crate::text::lemma_digits_of(x as nat, 10);
                    }
                    return true;
                },
                AddressType::IPV6 => {
                    if x != 0 {
                        proof {
                            crate::text::lemma_digits_of(x as nat, 16);
                        }
                        return true;
                    }
                },
            }
            i = i + 1;
        }
        assert(parts.take(self.address.len() as int) =~= parts);
        false
    }

    /// The text form of the endpoint, as its `Debug` output shows it.
    pub fn to_string(&self) -> (r: String)
        requires
            displayable(self@),
        ensures
            r@ == endpoint_text(self@),
    {
        let ghost parts = component_texts(self@);
        let four = self.address.len() == 4;
        proof {
            reveal_strlit(".");
            reveal_strlit(":");
        }
        let sep = if four {
            "."
        } else {
            ":"
        };
        let ghost sep_v: Seq<char> = if four {
            seq!['.']
        } else {
            seq![':']
        };
        assert(sep@ =~= sep_v);
        let mut s = String::new();
        let mut i: usize = 0;
        while i < self.address.len()
            invariant
                i <= self.address.len(),
                parts == component_texts(self@),
                sep@ == sep_v,
                s@ == join(parts.take(i as int), sep_v),
            decreases self.address.len() - i,
        {
            let ghost before = s@;
            if i > 0 {
                s.append(sep);
            }
            let x = self.address[i];
            match self.address_type {
                AddressType::IPV4 => push_digits(&mut s, x as u64, 10),
                AddressType::IPV6 => {
                    if x != 0 {
                        push_digits(&mut s, x as u64, 16);
                    }
                },
            }
            proof {
                let t = parts.take(i + 1);
                assert(t.drop_last() =~= parts.take(i as int));
                assert(parts[i as int] == component_text(self@.address_type, x));
                if i == 0 {
                    assert(parts.take(0) =~= Seq::<Seq<char>>::empty());
                }
            }
            assert(s@ =~= join(parts.take(i + 1), sep_v));
            i = i + 1;
        }
        assert(parts.take(self.address.len() as int) =~= parts);
        if !four {
            let n = s.as_str().unicode_len();
            let cut = s.as_str().substring_char(0, n - 1);
            s = String::from_str(cut);
            assert(s@ =~= join(parts, sep_v).drop_last());
        }
        s.append(":");
        push_digits(&mut s, self.port as u64, 10);
        assert(s@ =~= endpoint_text(self@));
        s
    }
}

/// One socket of a `/proc/net` file.
#[derive(Debug, PartialEq)]
pub struct SocketInfo {
    pub protocol: Protocol,
    pub local_endpoint: EndPoint,
    pub remote_endpoint: EndPoint,
    pub state: String,
    pub inode: usize,
    pub uid: usize,
}

impl Default for SocketInfo {
    fn default() -> (r: SocketInfo)
        ensures
            r.protocol == Protocol::TCP,
            r.local_endpoint@ == default_endpoint(),
            r.remote_endpoint@ == default_endpoint(),
            r.state@ == Seq::<char>::empty(),
            r.inode == 0,
            r.uid == 0,
    {
        SocketInfo {
            protocol: Protocol::TCP,
            local_endpoint: EndPoint::default(),
            remote_endpoint: EndPoint::default(),
            state: String::new(),
            inode: 0,
            uid: 0,
        }
    }
}

impl SocketInfo {
    /// A builder for the socket of one `/proc/net` record.
    pub fn builder(procfs_record: String, proto: Protocol) -> (r: SocketInfoBuilder)
        ensures
            r.data() == procfs_record@,
            r.protocol() == proto,
    {
        SocketInfoBuilder::new(procfs_record, proto)
    }
}

} // verus!
