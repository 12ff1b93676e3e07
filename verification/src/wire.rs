//! The deterministic binary payload format for a report, stated twice at the
//! spec level — once as a serializer over sequences, once as a parser — with
//! lemmas proving that parsing inverts serialization.
//!
//! Layout, in declaration order of the report's fields:
//! - optional hostname: tag byte (0 absent / 1 present), then a 4-byte
//!   big-endian length and the bytes when present;
//! - interface count as 4 big-endian bytes, then each interface:
//!   - name: 4-byte big-endian length, then the bytes;
//!   - optional MAC: tag byte, then exactly 6 bytes when present;
//!   - address count as 4 big-endian bytes, then each address: a family tag
//!     (4 or 6), the 4 or 16 address bytes, and one prefix-length byte.

use vstd::prelude::*;

use crate::report::{InterfaceV, IpNetV, ReportV};

verus! {

/// A report the wire format can carry: every variable-length field fits a
/// 4-byte length, MACs hold exactly 6 bytes, and addresses have the width
/// their family tag announces.
pub open spec fn encodable_ip(a: IpNetV) -> bool {
    match a {
        IpNetV::V4 { addr, .. } => addr.len() == 4,
        IpNetV::V6 { addr, .. } => addr.len() == 16,
    }
}

pub open spec fn encodable_iface(i: InterfaceV) -> bool {
    &&& i.name.len() <= 0xFFFF_FFFF
    &&& match i.mac {
        Some(m) => m.len() == 6,
        None => true,
    }
    &&& i.addrs.len() <= 0xFFFF_FFFF
    &&& forall|j: int| 0 <= j < i.addrs.len() ==> encodable_ip(#[trigger] i.addrs[j])
}

pub open spec fn encodable_report(r: ReportV) -> bool {
    &&& match r.hostname {
        Some(h) => h.len() <= 0xFFFF_FFFF,
        None => true,
    }
    &&& r.interfaces.len() <= 0xFFFF_FFFF
    &&& forall|j: int| 0 <= j < r.interfaces.len() ==> encodable_iface(
        #[trigger] r.interfaces[j],
    )
}

pub open spec fn u32_be(n: u32) -> Seq<u8> {
    seq![
        ((n >> 24) & 0xff) as u8,
        ((n >> 16) & 0xff) as u8,
        ((n >> 8) & 0xff) as u8,
        (n & 0xff) as u8,
    ]
}

pub open spec fn be_u32(b0: u8, b1: u8, b2: u8, b3: u8) -> u32 {
    ((b0 as u32) << 24) | ((b1 as u32) << 16) | ((b2 as u32) << 8) | (b3 as u32)
}

pub open spec fn ser_len_bytes(s: Seq<u8>) -> Seq<u8> {
    u32_be(s.len() as u32) + s
}

pub open spec fn ser_opt_bytes(o: Option<Seq<u8>>) -> Seq<u8> {
    match o {
        None => seq![0u8],
        Some(s) => seq![1u8] + ser_len_bytes(s),
    }
}

pub open spec fn ser_opt_mac(o: Option<Seq<u8>>) -> Seq<u8> {
    match o {
        None => seq![0u8],
        Some(m) => seq![1u8] + m,
    }
}

pub open spec fn ser_ip(a: IpNetV) -> Seq<u8> {
    match a {
        IpNetV::V4 { addr, prefix } => seq![4u8] + addr + seq![prefix],
        IpNetV::V6 { addr, prefix } => seq![6u8] + addr + seq![prefix],
    }
}

pub open spec fn ser_ip_seq(s: Seq<IpNetV>) -> Seq<u8>
    decreases s.len(),
{
    if s.len() == 0 {
        Seq::empty()
    } else {
        ser_ip(s[0]) + ser_ip_seq(s.skip(1))
    }
}

pub open spec fn ser_iface(i: InterfaceV) -> Seq<u8> {
    ser_len_bytes(i.name) + ser_opt_mac(i.mac) + u32_be(i.addrs.len() as u32) + ser_ip_seq(i.addrs)
}

pub open spec fn ser_iface_seq(s: Seq<InterfaceV>) -> Seq<u8>
    decreases s.len(),
{
    if s.len() == 0 {
        Seq::empty()
    } else {
        ser_iface(s[0]) + ser_iface_seq(s.skip(1))
    }
}

pub open spec fn ser_report(r: ReportV) -> Seq<u8> {
    ser_opt_bytes(r.hostname) + u32_be(r.interfaces.len() as u32) + ser_iface_seq(r.interfaces)
}

/// Serializing one more address appends its bytes at the end.
pub proof fn lemma_ser_ip_seq_push(s: Seq<IpNetV>, x: IpNetV)
    ensures
        ser_ip_seq(s.push(x)) == ser_ip_seq(s) + ser_ip(x),
    decreases s.len(),
{
    if s.len() == 0 {
        reveal_with_fuel(ser_ip_seq, 3);
        assert(s.push(x)[0] == x);
        assert(s.push(x).skip(1) =~= Seq::<IpNetV>::empty());
        assert(ser_ip_seq(s.push(x)) =~= ser_ip_seq(s) + ser_ip(x));
    } else {
        assert(s.push(x)[0] == s[0]);
        assert(s.push(x).skip(1) =~= s.skip(1).push(x));
        lemma_ser_ip_seq_push(s.skip(1), x);
        assert(ser_ip(s[0]) + (ser_ip_seq(s.skip(1)) + ser_ip(x)) =~= (ser_ip(s[0]) + ser_ip_seq(
            s.skip(1),
        )) + ser_ip(x));
    }
}

/// Serializing one more interface appends its bytes at the end.
pub proof fn lemma_ser_iface_seq_push(s: Seq<InterfaceV>, x: InterfaceV)
    ensures
        ser_iface_seq(s.push(x)) == ser_iface_seq(s) + ser_iface(x),
    decreases s.len(),
{
    if s.len() == 0 {
        reveal_with_fuel(ser_iface_seq, 3);
        assert(s.push(x)[0] == x);
        assert(s.push(x).skip(1) =~= Seq::<InterfaceV>::empty());
        assert(ser_iface_seq(s.push(x)) =~= ser_iface_seq(s) + ser_iface(x));
    } else {
        assert(s.push(x)[0] == s[0]);
        assert(s.push(x).skip(1) =~= s.skip(1).push(x));
        lemma_ser_iface_seq_push(s.skip(1), x);
        assert(ser_iface(s[0]) + (ser_iface_seq(s.skip(1)) + ser_iface(x)) =~= (ser_iface(s[0])
            + ser_iface_seq(s.skip(1))) + ser_iface(x));
    }
}

// The parser: each function consumes a prefix of the input and returns the
// parsed value together with the remaining bytes, or `None` when the input
// does not fit the format.

pub open spec fn parse_u32(s: Seq<u8>) -> Option<(u32, Seq<u8>)> {
    if s.len() < 4 {
        None
    } else {
        Some((be_u32(s[0], s[1], s[2], s[3]), s.skip(4)))
    }
}

pub open spec fn parse_raw(s: Seq<u8>, n: int) -> Option<(Seq<u8>, Seq<u8>)> {
    if n < 0 || s.len() < n {
        None
    } else {
        Some((s.take(n), s.skip(n)))
    }
}

pub open spec fn parse_len_bytes(s: Seq<u8>) -> Option<(Seq<u8>, Seq<u8>)> {
    match parse_u32(s) {
        None => None,
        Some((n, rest)) => parse_raw(rest, n as int),
    }
}

pub open spec fn parse_opt_bytes(s: Seq<u8>) -> Option<(Option<Seq<u8>>, Seq<u8>)> {
    if s.len() < 1 {
        None
    } else if s[0] == 0 {
        Some((None, s.skip(1)))
    } else if s[0] == 1 {
        match parse_len_bytes(s.skip(1)) {
            None => None,
            Some((b, rest)) => Some((Some(b), rest)),
        }
    } else {
        None
    }
}

pub open spec fn parse_opt_mac(s: Seq<u8>) -> Option<(Option<Seq<u8>>, Seq<u8>)> {
    if s.len() < 1 {
        None
    } else if s[0] == 0 {
        Some((None, s.skip(1)))
    } else if s[0] == 1 {
        match parse_raw(s.skip(1), 6) {
            None => None,
            Some((m, rest)) => Some((Some(m), rest)),
        }
    } else {
        None
    }
}

pub open spec fn parse_ip(s: Seq<u8>) -> Option<(IpNetV, Seq<u8>)> {
    if s.len() < 1 {
        None
    } else if s[0] == 4 || s[0] == 6 {
        let alen: int = if s[0] == 4 {
            4
        } else {
            16
        };
        match parse_raw(s.skip(1), alen) {
            None => None,
            Some((addr, rest)) => {
                if rest.len() < 1 {
                    None
                } else if s[0] == 4 {
                    Some((IpNetV::V4 { addr, prefix: rest[0] }, rest.skip(1)))
                } else {
                    Some((IpNetV::V6 { addr, prefix: rest[0] }, rest.skip(1)))
                }
            },
        }
    } else {
        None
    }
}

pub open spec fn parse_ip_seq(s: Seq<u8>, n: nat) -> Option<(Seq<IpNetV>, Seq<u8>)>
    decreases n,
{
    if n == 0 {
        Some((Seq::empty(), s))
    } else {
        match parse_ip(s) {
            None => None,
            Some((a, rest)) => match parse_ip_seq(rest, (n - 1) as nat) {
                None => None,
                Some((items, rest2)) => Some((seq![a] + items, rest2)),
            },
        }
    }
}

pub open spec fn parse_iface(s: Seq<u8>) -> Option<(InterfaceV, Seq<u8>)> {
    match parse_len_bytes(s) {
        None => None,
        Some((name, r1)) => match parse_opt_mac(r1) {
            None => None,
            Some((mac, r2)) => match parse_u32(r2) {
                None => None,
                Some((cnt, r3)) => match parse_ip_seq(r3, cnt as nat) {
                    None => None,
                    Some((addrs, r4)) => Some((InterfaceV { name, mac, addrs }, r4)),
                },
            },
        },
    }
}

pub open spec fn parse_iface_seq(s: Seq<u8>, n: nat) -> Option<(Seq<InterfaceV>, Seq<u8>)>
    decreases n,
{
    if n == 0 {
        Some((Seq::empty(), s))
    } else {
        match parse_iface(s) {
            None => None,
            Some((i, rest)) => match parse_iface_seq(rest, (n - 1) as nat) {
                None => None,
                Some((items, rest2)) => Some((seq![i] + items, rest2)),
            },
        }
    }
}

pub open spec fn parse_report_prefix(s: Seq<u8>) -> Option<(ReportV, Seq<u8>)> {
    match parse_opt_bytes(s) {
        None => None,
        Some((hostname, r1)) => match parse_u32(r1) {
            None => None,
            Some((cnt, r2)) => match parse_iface_seq(r2, cnt as nat) {
                None => None,
                Some((interfaces, r3)) => Some((ReportV { hostname, interfaces }, r3)),
            },
        },
    }
}

/// A payload parses as a report only when the whole payload is consumed:
/// trailing bytes are a format error.
pub open spec fn parse_report(s: Seq<u8>) -> Option<ReportV> {
    match parse_report_prefix(s) {
        None => None,
        Some((r, rest)) => if rest.len() == 0 {
            Some(r)
        } else {
            None
        },
    }
}

// Round-trip lemmas: parsing a serialized value followed by arbitrary further
// bytes yields that value and leaves exactly those further bytes.

pub proof fn lemma_parse_u32_be(n: u32, rest: Seq<u8>)
    ensures
        parse_u32(u32_be(n) + rest) == Some((n, rest)),
{
    let s = u32_be(n) + rest;
    assert(s[0] == ((n >> 24) & 0xff) as u8);
    assert(s[1] == ((n >> 16) & 0xff) as u8);
    assert(s[2] == ((n >> 8) & 0xff) as u8);
    assert(s[3] == (n & 0xff) as u8);
    assert(be_u32(
        ((n >> 24) & 0xff) as u8,
        ((n >> 16) & 0xff) as u8,
        ((n >> 8) & 0xff) as u8,
        (n & 0xff) as u8,
    ) == n) by (bit_vector);
    assert(s.skip(4) =~= rest);
}

pub proof fn lemma_parse_raw(b: Seq<u8>, rest: Seq<u8>)
    ensures
        parse_raw(b + rest, b.len() as int) == Some((b, rest)),
{
    let s = b + rest;
    assert(s.take(b.len() as int) =~= b);
    assert(s.skip(b.len() as int) =~= rest);
}

pub proof fn lemma_parse_len_bytes(b: Seq<u8>, rest: Seq<u8>)
    requires
        b.len() <= 0xFFFF_FFFF,
    ensures
        parse_len_bytes(ser_len_bytes(b) + rest) == Some((b, rest)),
{
    assert(ser_len_bytes(b) + rest =~= u32_be(b.len() as u32) + (b + rest));
    lemma_parse_u32_be(b.len() as u32, b + rest);
    assert((b.len() as u32) as int == b.len() as int);
    lemma_parse_raw(b, rest);
}

pub proof fn lemma_parse_opt_bytes(o: Option<Seq<u8>>, rest: Seq<u8>)
    requires
        match o {
            Some(b) => b.len() <= 0xFFFF_FFFF,
            None => true,
        },
    ensures
        parse_opt_bytes(ser_opt_bytes(o) + rest) == Some((o, rest)),
{
    match o {
        None => {
            let s = ser_opt_bytes(o) + rest;
            assert(s[0] == 0u8);
            assert(s.skip(1) =~= rest);
        },
        Some(b) => {
            let s = ser_opt_bytes(o) + rest;
            assert(s[0] == 1u8);
            assert(s.skip(1) =~= ser_len_bytes(b) + rest);
            lemma_parse_len_bytes(b, rest);
        },
    }
}

pub proof fn lemma_parse_opt_mac(o: Option<Seq<u8>>, rest: Seq<u8>)
    requires
        match o {
            Some(m) => m.len() == 6,
            None => true,
        },
    ensures
        parse_opt_mac(ser_opt_mac(o) + rest) == Some((o, rest)),
{
    match o {
        None => {
            let s = ser_opt_mac(o) + rest;
            assert(s[0] == 0u8);
            assert(s.skip(1) =~= rest);
        },
        Some(m) => {
            let s = ser_opt_mac(o) + rest;
            assert(s[0] == 1u8);
            assert(s.skip(1) =~= m + rest);
            lemma_parse_raw(m, rest);
        },
    }
}

pub proof fn lemma_parse_ip(a: IpNetV, rest: Seq<u8>)
    requires
        encodable_ip(a),
    ensures
        parse_ip(ser_ip(a) + rest) == Some((a, rest)),
{
    match a {
        IpNetV::V4 { addr, prefix } => {
            let s = ser_ip(a) + rest;
            assert(s[0] == 4u8);
            assert(s.skip(1) =~= addr + (seq![prefix] + rest));
            lemma_parse_raw(addr, seq![prefix] + rest);
            assert((seq![prefix] + rest)[0] == prefix);
            assert((seq![prefix] + rest).skip(1) =~= rest);
        },
        IpNetV::V6 { addr, prefix } => {
            let s = ser_ip(a) + rest;
            assert(s[0] == 6u8);
            assert(s.skip(1) =~= addr + (seq![prefix] + rest));
            lemma_parse_raw(addr, seq![prefix] + rest);
            assert((seq![prefix] + rest)[0] == prefix);
            assert((seq![prefix] + rest).skip(1) =~= rest);
        },
    }
}

pub proof fn lemma_parse_ip_seq(s: Seq<IpNetV>, rest: Seq<u8>)
    requires
        forall|j: int| 0 <= j < s.len() ==> encodable_ip(#[trigger] s[j]),
    ensures
        parse_ip_seq(ser_ip_seq(s) + rest, s.len()) == Some((s, rest)),
    decreases s.len(),
{
    if s.len() == 0 {
        assert(ser_ip_seq(s) + rest =~= rest);
        assert(s =~= Seq::<IpNetV>::empty());
    } else {
        let tail = s.skip(1);
        assert(ser_ip_seq(s) + rest =~= ser_ip(s[0]) + (ser_ip_seq(tail) + rest));
        lemma_parse_ip(s[0], ser_ip_seq(tail) + rest);
        assert(forall|j: int| 0 <= j < tail.len() ==> encodable_ip(#[trigger] tail[j]));
        lemma_parse_ip_seq(tail, rest);
        assert(seq![s[0]] + tail =~= s);
    }
}

pub proof fn lemma_parse_iface(i: InterfaceV, rest: Seq<u8>)
    requires
        encodable_iface(i),
    ensures
        parse_iface(ser_iface(i) + rest) == Some((i, rest)),
{
    let after_name = ser_opt_mac(i.mac) + (u32_be(i.addrs.len() as u32) + (ser_ip_seq(i.addrs)
        + rest));
    assert(ser_iface(i) + rest =~= ser_len_bytes(i.name) + after_name);
    lemma_parse_len_bytes(i.name, after_name);
    let after_mac = u32_be(i.addrs.len() as u32) + (ser_ip_seq(i.addrs) + rest);
    assert(after_name =~= ser_opt_mac(i.mac) + after_mac);
    lemma_parse_opt_mac(i.mac, after_mac);
    lemma_parse_u32_be(i.addrs.len() as u32, ser_ip_seq(i.addrs) + rest);
    assert((i.addrs.len() as u32) as nat == i.addrs.len());
    lemma_parse_ip_seq(i.addrs, rest);
    assert(InterfaceV { name: i.name, mac: i.mac, addrs: i.addrs } == i);
}

pub proof fn lemma_parse_iface_seq(s: Seq<InterfaceV>, rest: Seq<u8>)
    requires
        forall|j: int| 0 <= j < s.len() ==> encodable_iface(#[trigger] s[j]),
    ensures
        parse_iface_seq(ser_iface_seq(s) + rest, s.len()) == Some((s, rest)),
    decreases s.len(),
{
    if s.len() == 0 {
        assert(ser_iface_seq(s) + rest =~= rest);
        assert(s =~= Seq::<InterfaceV>::empty());
    } else {
        let tail = s.skip(1);
        assert(ser_iface_seq(s) + rest =~= ser_iface(s[0]) + (ser_iface_seq(tail) + rest));
        lemma_parse_iface(s[0], ser_iface_seq(tail) + rest);
        assert(forall|j: int| 0 <= j < tail.len() ==> encodable_iface(#[trigger] tail[j]));
        lemma_parse_iface_seq(tail, rest);
        assert(seq![s[0]] + tail =~= s);
    }
}

pub proof fn lemma_parse_report_prefix(r: ReportV, rest: Seq<u8>)
    requires
        encodable_report(r),
    ensures
        parse_report_prefix(ser_report(r) + rest) == Some((r, rest)),
{
    let after_host = u32_be(r.interfaces.len() as u32) + (ser_iface_seq(r.interfaces) + rest);
    assert(ser_report(r) + rest =~= ser_opt_bytes(r.hostname) + after_host);
    lemma_parse_opt_bytes(r.hostname, after_host);
    lemma_parse_u32_be(r.interfaces.len() as u32, ser_iface_seq(r.interfaces) + rest);
    assert((r.interfaces.len() as u32) as nat == r.interfaces.len());
    lemma_parse_iface_seq(r.interfaces, rest);
    assert(ReportV { hostname: r.hostname, interfaces: r.interfaces } == r);
}

/// Parsing inverts serialization: every encodable report is recovered exactly
/// from its serialized payload.
pub proof fn lemma_parse_ser_report(r: ReportV)
    requires
        encodable_report(r),
    ensures
        parse_report(ser_report(r)) == Some(r),
{
    lemma_parse_report_prefix(r, Seq::empty());
    assert(ser_report(r) + Seq::<u8>::empty() =~= ser_report(r));
}

} // verus!
