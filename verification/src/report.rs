use vstd::prelude::*;

verus! {

/// An IP network attached to an interface: raw address bytes plus a prefix
/// length. A `V4` address holds 4 bytes, a `V6` address 16; the wire format
/// refuses other widths.
#[derive(Debug)]
pub enum IpNet {
    V4 { addr: Vec<u8>, prefix: u8 },
    V6 { addr: Vec<u8>, prefix: u8 },
}

/// One network interface of the reporting host. `name` holds the UTF-8 bytes
/// of the OS-level interface name; `mac` the 6-byte hardware address when the
/// OS supplies one.
#[derive(Debug)]
pub struct Interface {
    pub name: Vec<u8>,
    pub mac: Option<Vec<u8>>,
    pub addrs: Vec<IpNet>,
}

/// What this host broadcasts: its name (UTF-8 bytes, absent when the OS
/// cannot supply one) and its network interfaces, in OS enumeration order.
#[derive(Debug)]
pub struct Report {
    pub hostname: Option<Vec<u8>>,
    pub interfaces: Vec<Interface>,
}

/// An interface exactly as the OS enumeration hands it over, before the
/// report's filtering: the loopback flag is still attached and the address
/// list may be empty.
#[derive(Debug)]
pub struct RawInterface {
    pub name: Vec<u8>,
    pub mac: Option<Vec<u8>>,
    pub addrs: Vec<IpNet>,
    pub loopback: bool,
}

/// Mathematical value of an `IpNet`.
pub ghost enum IpNetV {
    V4 { addr: Seq<u8>, prefix: u8 },
    V6 { addr: Seq<u8>, prefix: u8 },
}

/// Mathematical value of an `Interface`.
pub ghost struct InterfaceV {
    pub name: Seq<u8>,
    pub mac: Option<Seq<u8>>,
    pub addrs: Seq<IpNetV>,
}

/// Mathematical value of a `Report`.
pub ghost struct ReportV {
    pub hostname: Option<Seq<u8>>,
    pub interfaces: Seq<InterfaceV>,
}

/// Mathematical value of a `RawInterface`.
pub ghost struct RawInterfaceV {
    pub name: Seq<u8>,
    pub mac: Option<Seq<u8>>,
    pub addrs: Seq<IpNetV>,
    pub loopback: bool,
}

pub open spec fn opt_bytes_view(o: Option<Vec<u8>>) -> Option<Seq<u8>> {
    match o {
        Some(b) => Some(b@),
        None => None,
    }
}

impl View for IpNet {
    type V = IpNetV;

    open spec fn view(&self) -> IpNetV {
        match self {
            IpNet::V4 { addr, prefix } => IpNetV::V4 { addr: addr@, prefix: *prefix },
            IpNet::V6 { addr, prefix } => IpNetV::V6 { addr: addr@, prefix: *prefix },
        }
    }
}

impl View for Interface {
    type V = InterfaceV;

    open spec fn view(&self) -> InterfaceV {
        InterfaceV {
            name: self.name@,
            mac: opt_bytes_view(self.mac),
            addrs: self.addrs@.map_values(|a: IpNet| a@),
        }
    }
}

impl View for Report {
    type V = ReportV;

    open spec fn view(&self) -> ReportV {
        ReportV {
            hostname: opt_bytes_view(self.hostname),
            interfaces: self.interfaces@.map_values(|i: Interface| i@),
        }
    }
}

impl View for RawInterface {
    type V = RawInterfaceV;

    open spec fn view(&self) -> RawInterfaceV {
        RawInterfaceV {
            name: self.name@,
            mac: opt_bytes_view(self.mac),
            addrs: self.addrs@.map_values(|a: IpNet| a@),
            loopback: self.loopback,
        }
    }
}

pub open spec fn ips_view(v: Vec<IpNet>) -> Seq<IpNetV> {
    v@.map_values(|a: IpNet| a@)
}

pub open spec fn ifaces_view(v: Vec<Interface>) -> Seq<InterfaceV> {
    v@.map_values(|i: Interface| i@)
}

/// A raw interface enters the report exactly when it is not the loopback
/// interface and has at least one address.
pub open spec fn raw_kept(r: RawInterfaceV) -> bool {
    !r.loopback && r.addrs.len() > 0
}

/// The report entry a kept raw interface becomes: the loopback flag dropped,
/// everything else carried over.
pub open spec fn iface_of_raw(r: RawInterfaceV) -> InterfaceV {
    InterfaceV { name: r.name, mac: r.mac, addrs: r.addrs }
}

/// The interface list a report is built from: the raw list in order, without
/// the loopback interface and without interfaces that have no addresses.
pub open spec fn spec_filter_ifaces(raw: Seq<RawInterfaceV>) -> Seq<InterfaceV>
    decreases raw.len(),
{
    if raw.len() == 0 {
        Seq::empty()
    } else {
        let init = spec_filter_ifaces(raw.drop_last());
        if raw_kept(raw.last()) {
            init.push(iface_of_raw(raw.last()))
        } else {
            init
        }
    }
}

fn bytes_eq(a: &Vec<u8>, b: &Vec<u8>) -> (r: bool)
    ensures
        r == (a@ == b@),
{
    if a.len() != b.len() {
        return false;
    }
    let mut i: usize = 0;
    while i < a.len()
        invariant
            i <= a@.len(),
            a@.len() == b@.len(),
            forall|j: int| 0 <= j < i ==> a@[j] == b@[j],
        decreases a@.len() - i,
    {
        if a[i] != b[i] {
            return false;
        }
        i += 1;
    }
    proof {
        assert(a@ =~= b@);
    }
    true
}

fn opt_bytes_eq(a: &Option<Vec<u8>>, b: &Option<Vec<u8>>) -> (r: bool)
    ensures
        r == (opt_bytes_view(*a) == opt_bytes_view(*b)),
{
    match (a, b) {
        (Some(x), Some(y)) => bytes_eq(x, y),
        (None, None) => true,
        _ => false,
    }
}

fn ip_eq(a: &IpNet, b: &IpNet) -> (r: bool)
    ensures
        r == (a@ == b@),
{
    match (a, b) {
        (IpNet::V4 { addr: a1, prefix: p1 }, IpNet::V4 { addr: a2, prefix: p2 }) => {
            bytes_eq(a1, a2) && *p1 == *p2
        },
        (IpNet::V6 { addr: a1, prefix: p1 }, IpNet::V6 { addr: a2, prefix: p2 }) => {
            bytes_eq(a1, a2) && *p1 == *p2
        },
        _ => false,
    }
}

fn ips_eq(a: &Vec<IpNet>, b: &Vec<IpNet>) -> (r: bool)
    ensures
        r == (ips_view(*a) == ips_view(*b)),
{
    if a.len() != b.len() {
        proof {
            assert(ips_view(*a).len() == a@.len());
            assert(ips_view(*b).len() == b@.len());
        }
        return false;
    }
    let mut i: usize = 0;
    while i < a.len()
        invariant
            i <= a@.len(),
            a@.len() == b@.len(),
            forall|j: int| 0 <= j < i ==> a@[j]@ == b@[j]@,
        decreases a@.len() - i,
    {
        if !ip_eq(&a[i], &b[i]) {
            proof {
                assert(ips_view(*a)[i as int] != ips_view(*b)[i as int]);
            }
            return false;
        }
        i += 1;
    }
    proof {
        assert(ips_view(*a) =~= ips_view(*b));
    }
    true
}

fn iface_eq(a: &Interface, b: &Interface) -> (r: bool)
    ensures
        r == (a@ == b@),
{
    if !bytes_eq(&a.name, &b.name) {
        return false;
    }
    if !opt_bytes_eq(&a.mac, &b.mac) {
        return false;
    }
    ips_eq(&a.addrs, &b.addrs)
}

impl Report {
    /// Reports are plain data: two are the same report exactly when their
    /// mathematical values agree field for field.
    pub fn same_as(&self, other: &Report) -> (r: bool)
        ensures
            r == (self@ == other@),
    {
        if !opt_bytes_eq(&self.hostname, &other.hostname) {
            return false;
        }
        if self.interfaces.len() != other.interfaces.len() {
            proof {
                assert(self@.interfaces.len() == self.interfaces@.len());
                assert(other@.interfaces.len() == other.interfaces@.len());
            }
            return false;
        }
        let mut i: usize = 0;
        while i < self.interfaces.len()
            invariant
                i <= self.interfaces@.len(),
                self.interfaces@.len() == other.interfaces@.len(),
                self@.hostname == other@.hostname,
                forall|j: int| 0 <= j < i ==> self.interfaces@[j]@ == other.interfaces@[j]@,
            decreases self.interfaces@.len() - i,
        {
            if !iface_eq(&self.interfaces[i], &other.interfaces[i]) {
                proof {
                    assert(self@.interfaces[i as int] != other@.interfaces[i as int]);
                }
                return false;
            }
            i += 1;
        }
        proof {
            assert(self@.interfaces =~= other@.interfaces);
        }
        true
    }

    /// Builds the report that a raw OS enumeration yields: the hostname is
    /// kept as given, and the interface list is filtered to drop the loopback
    /// interface and every interface without addresses, preserving order.
    pub fn from_raw(hostname: Option<Vec<u8>>, raw: Vec<RawInterface>) -> (r: Report)
        ensures
            r@.hostname == opt_bytes_view(hostname),
            r@.interfaces == spec_filter_ifaces(raw@.map_values(|x: RawInterface| x@)),
    {
        let ghost all: Seq<RawInterfaceV> = raw@.map_values(|x: RawInterface| x@);
        let mut rest = raw;
        let mut interfaces: Vec<Interface> = Vec::new();
        let ghost k: int = 0;
        while rest.len() > 0
            invariant
                0 <= k <= all.len(),
                rest@.map_values(|x: RawInterface| x@) =~= all.skip(k),
                all.len() - k == rest@.len(),
                interfaces@.map_values(|i: Interface| i@) == spec_filter_ifaces(all.take(k)),
            decreases rest@.len(),
        {
            let ghost before = rest@;
            let x = rest.remove(0);
            proof {
                assert(x@ == before.map_values(|x: RawInterface| x@)[0]);
                assert(all.skip(k)[0] == all[k]);
                assert(rest@ == before.remove(0));
                assert forall|j: int| 0 <= j < rest@.len()
                    implies #[trigger] rest@[j]@ == all.skip(k + 1)[j] by {
                    assert(rest@[j] == before[j + 1]);
                    assert(before.map_values(|x: RawInterface| x@)[j + 1] == all.skip(k)[j + 1]);
                    assert(all.skip(k)[j + 1] == all[k + 1 + j]);
                }
                assert(rest@.map_values(|x: RawInterface| x@) =~= all.skip(k + 1));
                assert(all.take(k + 1).drop_last() =~= all.take(k));
                assert(all.take(k + 1).last() == all[k]);
            }
            let ghost prev = interfaces@.map_values(|i: Interface| i@);
            let RawInterface { name, mac, addrs, loopback } = x;
            if !loopback && addrs.len() > 0 {
                let iface = Interface { name, mac, addrs };
                proof {
                    assert(iface@ == iface_of_raw(all[k]));
                }
                interfaces.push(iface);
                proof {
                    assert(interfaces@.map_values(|i: Interface| i@)
                        =~= prev.push(iface_of_raw(all[k])));
                }
            } else {
                proof {
                    assert(!raw_kept(all[k]));
                }
            }
            proof {
                k = k + 1;
            }
        }
        proof {
            assert(all.take(k) =~= all);
        }
        Report { hostname, interfaces }
    }
}

} // verus!
