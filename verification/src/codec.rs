//! The envelope codec: executable encoding and decoding of reports, proved
//! against the spec-level format in `wire`, plus the one-byte envelope flag
//! and the LZMA-compressed path.

use vstd::prelude::*;

use crate::errors::{DecodeError, EncodeError};
use crate::report::{ifaces_view, ips_view, opt_bytes_view, Interface, IpNet, Report};
use crate::report::{spec_filter_ifaces, InterfaceV, IpNetV, RawInterface, ReportV};
use crate::wire::{encodable_iface, encodable_ip, encodable_report};
use crate::wire::{
    lemma_parse_ser_report, lemma_ser_iface_seq_push, lemma_ser_ip_seq_push, parse_iface,
    parse_iface_seq, parse_ip, parse_ip_seq, parse_len_bytes, parse_opt_bytes, parse_opt_mac,
    parse_raw, parse_report, parse_u32,
};
use crate::wire::{
    ser_iface, ser_iface_seq, ser_ip, ser_ip_seq, ser_len_bytes, ser_opt_bytes, ser_opt_mac,
    ser_report, u32_be,
};

verus! {

/// The bytes `lzma_rs::lzma_compress` produces for a given input; a pure
/// function of the input, since the encoder runs with fixed options and no
/// outside state.
pub uninterp spec fn compress_of(data: Seq<u8>) -> Seq<u8>;

/// The bytes `lzma_rs::lzma_decompress` recovers from a given input, or
/// `None` when it reports the stream malformed; a pure function of the input.
pub uninterp spec fn decompress_of(data: Seq<u8>) -> Option<Seq<u8>>;

/// Relies on `lzma_rs::lzma_compress` (default options): it writes a 13-byte
/// header followed by the encoded stream — so never an empty output — and its
/// output is deterministic in the input bytes; `lzma_rs::lzma_decompress`
/// recovers the input from it exactly. Its only failure is an I/O error of
/// the reader or writer, and the in-memory cursors used here raise none, so
/// the call always returns the compressed bytes.
#[verifier::external_body]
fn lzma_compress_vec(data: &Vec<u8>) -> (r: Option<Vec<u8>>)
    ensures
        r is Some,
        match r {
            Some(c) => {
                &&& c@ == compress_of(data@)
                &&& c@.len() >= 1
                &&& decompress_of(c@) == Some(data@)
            },
            None => true,
        },
{
    let mut input = std::io::Cursor::new(data.as_slice());
    let mut output: Vec<u8> = Vec::new();
    match lzma_rs::lzma_compress(&mut input, &mut output) {
        Ok(()) => Some(output),
        Err(_) => None,
    }
}

/// Relies on `lzma_rs::lzma_decompress` (default options): deterministic in
/// the input bytes, returning the recovered stream or an error for a
/// malformed one.
#[verifier::external_body]
fn lzma_decompress_vec(data: &Vec<u8>) -> (r: Option<Vec<u8>>)
    ensures
        match r {
            Some(d) => decompress_of(data@) == Some(d@),
            None => decompress_of(data@) is None,
        },
{
    let mut input = std::io::Cursor::new(data.as_slice());
    let mut output: Vec<u8> = Vec::new();
    match lzma_rs::lzma_decompress(&mut input, &mut output) {
        Ok(()) => Some(output),
        Err(_) => None,
    }
}

/// What decoding a buffer means, stated once over sequences: a buffer under
/// two bytes is too short; otherwise bit 0 of the flag byte selects the raw
/// or the compressed payload, a compressed payload must decompress, and the
/// (decompressed) payload must parse exactly.
pub open spec fn spec_decode(bytes: Seq<u8>) -> Result<ReportV, DecodeError> {
    if bytes.len() < 2 {
        Err(DecodeError::TooShort)
    } else if bytes[0] & 1 == 1 {
        match decompress_of(bytes.skip(1)) {
            Some(p) => match parse_report(p) {
                Some(r) => Ok(r),
                None => Err(DecodeError::DeserializationFailed),
            },
            None => Err(DecodeError::BadCompression),
        }
    } else {
        match parse_report(bytes.skip(1)) {
            Some(r) => Ok(r),
            None => Err(DecodeError::DeserializationFailed),
        }
    }
}

/// Round trip on the raw path: the uncompressed envelope of an encodable
/// report — the zero flag byte followed by the serialized payload — decodes
/// back to exactly that report.
pub proof fn lemma_round_trip_uncompressed(r: ReportV)
    requires
        encodable_report(r),
    ensures
        spec_decode(seq![0u8] + ser_report(r)) == Ok::<ReportV, DecodeError>(r),
{
    let bytes = seq![0u8] + ser_report(r);
    assert(ser_opt_bytes(r.hostname).len() >= 1);
    assert(bytes.len() >= 2);
    assert(bytes[0] == 0u8);
    assert(0u8 & 1 == 0u8) by (bit_vector);
    assert(bytes.skip(1) =~= ser_report(r));
    lemma_parse_ser_report(r);
}

/// Round trip on the compressed path, stated over the decompressor's
/// behaviour: a flag byte with bit 0 set, followed by any non-empty payload
/// that decompresses to the serialized report, decodes back to exactly that
/// report.
pub proof fn lemma_round_trip_compressed(r: ReportV, c: Seq<u8>)
    requires
        encodable_report(r),
        c.len() >= 1,
        decompress_of(c) == Some(ser_report(r)),
    ensures
        spec_decode(seq![1u8] + c) == Ok::<ReportV, DecodeError>(r),
{
    let bytes = seq![1u8] + c;
    assert(bytes.len() >= 2);
    assert(bytes[0] == 1u8);
    assert(1u8 & 1 == 1u8) by (bit_vector);
    assert(bytes.skip(1) =~= c);
    lemma_parse_ser_report(r);
}

// Executable serialization: each writer appends exactly the bytes its spec
// counterpart describes, or reports the value unencodable.

fn push_all(out: &mut Vec<u8>, b: &Vec<u8>)
    ensures
        final(out)@ == old(out)@ + b@,
{
    let mut i: usize = 0;
    while i < b.len()
        invariant
            i <= b@.len(),
            out@ == old(out)@ + b@.take(i as int),
        decreases b@.len() - i,
    {
        out.push(b[i]);
        proof {
            assert((old(out)@ + b@.take(i as int)).push(b@[i as int]) =~= old(out)@ + b@.take(
                i as int + 1,
            ));
        }
        i += 1;
    }
    proof {
        assert(b@.take(b@.len() as int) =~= b@);
    }
}

fn write_u32(out: &mut Vec<u8>, n: u32)
    ensures
        final(out)@ == old(out)@ + u32_be(n),
{
    proof {
        assert(((n >> 24) & 0xff) <= 0xff) by (bit_vector);
        assert(((n >> 16) & 0xff) <= 0xff) by (bit_vector);
        assert(((n >> 8) & 0xff) <= 0xff) by (bit_vector);
        assert((n & 0xff) <= 0xff) by (bit_vector);
    }
    out.push(((n >> 24) & 0xff) as u8);
    out.push(((n >> 16) & 0xff) as u8);
    out.push(((n >> 8) & 0xff) as u8);
    out.push((n & 0xff) as u8);
    proof {
        assert(out@ =~= old(out)@ + u32_be(n));
    }
}

fn write_len_bytes(out: &mut Vec<u8>, b: &Vec<u8>) -> (ok: bool)
    ensures
        ok == (b@.len() <= 0xFFFF_FFFF),
        ok ==> final(out)@ == old(out)@ + ser_len_bytes(b@),
        !ok ==> final(out)@ == old(out)@,
{
    if b.len() > 0xFFFF_FFFFusize {
        return false;
    }
    write_u32(out, b.len() as u32);
    push_all(out, b);
    proof {
        assert(out@ =~= old(out)@ + ser_len_bytes(b@));
    }
    true
}

fn write_opt_bytes(out: &mut Vec<u8>, o: &Option<Vec<u8>>) -> (ok: bool)
    ensures
        ok == match opt_bytes_view(*o) {
            Some(s) => s.len() <= 0xFFFF_FFFF,
            None => true,
        },
        ok ==> final(out)@ == old(out)@ + ser_opt_bytes(opt_bytes_view(*o)),
{
    match o {
        None => {
            out.push(0u8);
            proof {
                assert(out@ =~= old(out)@ + ser_opt_bytes(opt_bytes_view(*o)));
            }
            true
        },
        Some(b) => {
            if b.len() > 0xFFFF_FFFFusize {
                return false;
            }
            out.push(1u8);
            write_len_bytes(out, b);
            proof {
                assert(out@ =~= old(out)@ + ser_opt_bytes(opt_bytes_view(*o)));
            }
            true
        },
    }
}

fn write_opt_mac(out: &mut Vec<u8>, o: &Option<Vec<u8>>) -> (ok: bool)
    ensures
        ok == match opt_bytes_view(*o) {
            Some(m) => m.len() == 6,
            None => true,
        },
        ok ==> final(out)@ == old(out)@ + ser_opt_mac(opt_bytes_view(*o)),
        !ok ==> final(out)@ == old(out)@,
{
    match o {
        None => {
            out.push(0u8);
            proof {
                assert(out@ =~= old(out)@ + ser_opt_mac(opt_bytes_view(*o)));
            }
            true
        },
        Some(m) => {
            if m.len() != 6 {
                return false;
            }
            out.push(1u8);
            push_all(out, m);
            proof {
                assert(out@ =~= old(out)@ + ser_opt_mac(opt_bytes_view(*o)));
            }
            true
        },
    }
}

fn write_ip(out: &mut Vec<u8>, a: &IpNet) -> (ok: bool)
    ensures
        ok == encodable_ip(a@),
        ok ==> final(out)@ == old(out)@ + ser_ip(a@),
        !ok ==> final(out)@ == old(out)@,
{
    match a {
        IpNet::V4 { addr, prefix } => {
            if addr.len() != 4 {
                return false;
            }
            out.push(4u8);
            push_all(out, addr);
            out.push(*prefix);
            proof {
                assert(out@ =~= old(out)@ + ser_ip(a@));
            }
            true
        },
        IpNet::V6 { addr, prefix } => {
            if addr.len() != 16 {
                return false;
            }
            out.push(6u8);
            push_all(out, addr);
            out.push(*prefix);
            proof {
                assert(out@ =~= old(out)@ + ser_ip(a@));
            }
            true
        },
    }
}

fn write_ip_list(out: &mut Vec<u8>, addrs: &Vec<IpNet>) -> (ok: bool)
    ensures
        ok == (forall|j: int|
            0 <= j < ips_view(*addrs).len() ==> encodable_ip(#[trigger] ips_view(*addrs)[j])),
        ok ==> final(out)@ == old(out)@ + ser_ip_seq(ips_view(*addrs)),
{
    let ghost ips = ips_view(*addrs);
    let mut i: usize = 0;
    while i < addrs.len()
        invariant
            i <= addrs@.len(),
            ips == ips_view(*addrs),
            ips.len() == addrs@.len(),
            forall|j: int| 0 <= j < i ==> encodable_ip(#[trigger] ips[j]),
            out@ == old(out)@ + ser_ip_seq(ips.take(i as int)),
        decreases addrs@.len() - i,
    {
        proof {
            assert(addrs@[i as int]@ == ips[i as int]);
        }
        if !write_ip(out, &addrs[i]) {
            return false;
        }
        proof {
            assert(ips.take(i as int).push(ips[i as int]) =~= ips.take(i as int + 1));
            lemma_ser_ip_seq_push(ips.take(i as int), ips[i as int]);
            assert((old(out)@ + ser_ip_seq(ips.take(i as int))) + ser_ip(ips[i as int])
                =~= old(out)@ + ser_ip_seq(ips.take(i as int + 1)));
        }
        i += 1;
    }
    proof {
        assert(ips.take(ips.len() as int) =~= ips);
    }
    true
}

fn write_iface(out: &mut Vec<u8>, ifc: &Interface) -> (ok: bool)
    ensures
        ok == encodable_iface(ifc@),
        ok ==> final(out)@ == old(out)@ + ser_iface(ifc@),
{
    if !write_len_bytes(out, &ifc.name) {
        return false;
    }
    if !write_opt_mac(out, &ifc.mac) {
        return false;
    }
    if ifc.addrs.len() > 0xFFFF_FFFFusize {
        return false;
    }
    write_u32(out, ifc.addrs.len() as u32);
    if !write_ip_list(out, &ifc.addrs) {
        return false;
    }
    proof {
        assert(out@ =~= old(out)@ + ser_iface(ifc@));
    }
    true
}

fn write_iface_list(out: &mut Vec<u8>, ifaces: &Vec<Interface>) -> (ok: bool)
    ensures
        ok == (forall|j: int|
            0 <= j < ifaces_view(*ifaces).len() ==> encodable_iface(
                #[trigger] ifaces_view(*ifaces)[j],
            )),
        ok ==> final(out)@ == old(out)@ + ser_iface_seq(ifaces_view(*ifaces)),
{
    let ghost ifs = ifaces_view(*ifaces);
    let mut i: usize = 0;
    while i < ifaces.len()
        invariant
            i <= ifaces@.len(),
            ifs == ifaces_view(*ifaces),
            ifs.len() == ifaces@.len(),
            forall|j: int| 0 <= j < i ==> encodable_iface(#[trigger] ifs[j]),
            out@ == old(out)@ + ser_iface_seq(ifs.take(i as int)),
        decreases ifaces@.len() - i,
    {
        proof {
            assert(ifaces@[i as int]@ == ifs[i as int]);
        }
        if !write_iface(out, &ifaces[i]) {
            return false;
        }
        proof {
            assert(ifs.take(i as int).push(ifs[i as int]) =~= ifs.take(i as int + 1));
            lemma_ser_iface_seq_push(ifs.take(i as int), ifs[i as int]);
            assert((old(out)@ + ser_iface_seq(ifs.take(i as int))) + ser_iface(ifs[i as int])
                =~= old(out)@ + ser_iface_seq(ifs.take(i as int + 1)));
        }
        i += 1;
    }
    proof {
        assert(ifs.take(ifs.len() as int) =~= ifs);
    }
    true
}

fn report_payload(r: &Report) -> (res: Result<Vec<u8>, EncodeError>)
    ensures
        match res {
            Ok(v) => encodable_report(r@) && v@ == ser_report(r@),
            Err(e) => !encodable_report(r@) && e == EncodeError::SerializationFailed,
        },
{
    let mut out: Vec<u8> = Vec::new();
    if !write_opt_bytes(&mut out, &r.hostname) {
        return Err(EncodeError::SerializationFailed);
    }
    if r.interfaces.len() > 0xFFFF_FFFFusize {
        return Err(EncodeError::SerializationFailed);
    }
    write_u32(&mut out, r.interfaces.len() as u32);
    if !write_iface_list(&mut out, &r.interfaces) {
        return Err(EncodeError::SerializationFailed);
    }
    proof {
        assert(out@ =~= ser_report(r@));
    }
    Ok(out)
}

// Executable parsing: each reader consumes from a cursor position and is
// proved to agree with its spec counterpart on the remaining bytes.

fn parse_u32_at(buf: &Vec<u8>, pos: usize) -> (r: Option<(u32, usize)>)
    requires
        pos <= buf@.len(),
    ensures
        match r {
            Some((n, np)) => {
                &&& pos <= np <= buf@.len()
                &&& parse_u32(buf@.skip(pos as int)) == Some((n, buf@.skip(np as int)))
            },
            None => parse_u32(buf@.skip(pos as int)) is None,
        },
{
    if buf.len() - pos < 4 {
        return None;
    }
    let b0 = buf[pos];
    let b1 = buf[pos + 1];
    let b2 = buf[pos + 2];
    let b3 = buf[pos + 3];
    let n = ((b0 as u32) << 24) | ((b1 as u32) << 16) | ((b2 as u32) << 8) | (b3 as u32);
    proof {
        assert(buf@.skip(pos as int).skip(4) =~= buf@.skip(pos as int + 4));
    }
    Some((n, pos + 4))
}

fn parse_raw_at(buf: &Vec<u8>, pos: usize, n: usize) -> (r: Option<(Vec<u8>, usize)>)
    requires
        pos <= buf@.len(),
    ensures
        match r {
            Some((b, np)) => {
                &&& pos <= np <= buf@.len()
                &&& parse_raw(buf@.skip(pos as int), n as int) == Some((b@, buf@.skip(np as int)))
            },
            None => parse_raw(buf@.skip(pos as int), n as int) is None,
        },
{
    if buf.len() - pos < n {
        return None;
    }
    let mut b: Vec<u8> = Vec::new();
    let mut i: usize = 0;
    while i < n
        invariant
            i <= n,
            pos + n <= buf@.len(),
            buf@.len() <= usize::MAX,
            b@ == buf@.subrange(pos as int, pos as int + i as int),
        decreases n - i,
    {
        b.push(buf[pos + i]);
        proof {
            assert(buf@.subrange(pos as int, pos as int + i as int).push(buf@[pos as int + i as int])
                =~= buf@.subrange(pos as int, pos as int + i as int + 1));
        }
        i += 1;
    }
    proof {
        assert(buf@.skip(pos as int).take(n as int) =~= buf@.subrange(
            pos as int,
            pos as int + n as int,
        ));
        assert(buf@.skip(pos as int).skip(n as int) =~= buf@.skip(pos as int + n as int));
    }
    Some((b, pos + n))
}

fn parse_len_bytes_at(buf: &Vec<u8>, pos: usize) -> (r: Option<(Vec<u8>, usize)>)
    requires
        pos <= buf@.len(),
    ensures
        match r {
            Some((b, np)) => {
                &&& pos <= np <= buf@.len()
                &&& parse_len_bytes(buf@.skip(pos as int)) == Some((b@, buf@.skip(np as int)))
            },
            None => parse_len_bytes(buf@.skip(pos as int)) is None,
        },
{
    match parse_u32_at(buf, pos) {
        None => None,
        Some((n, p1)) => parse_raw_at(buf, p1, n as usize),
    }
}

fn parse_opt_bytes_at(buf: &Vec<u8>, pos: usize) -> (r: Option<(Option<Vec<u8>>, usize)>)
    requires
        pos <= buf@.len(),
    ensures
        match r {
            Some((o, np)) => {
                &&& pos <= np <= buf@.len()
                &&& parse_opt_bytes(buf@.skip(pos as int)) == Some(
                    (opt_bytes_view(o), buf@.skip(np as int)),
                )
            },
            None => parse_opt_bytes(buf@.skip(pos as int)) is None,
        },
{
    if buf.len() - pos < 1 {
        return None;
    }
    let tag = buf[pos];
    if tag == 0 {
        proof {
            assert(buf@.skip(pos as int).skip(1) =~= buf@.skip(pos as int + 1));
        }
        Some((None, pos + 1))
    } else if tag == 1 {
        proof {
            assert(buf@.skip(pos as int).skip(1) =~= buf@.skip(pos as int + 1));
        }
        match parse_len_bytes_at(buf, pos + 1) {
            None => None,
            Some((b, np)) => Some((Some(b), np)),
        }
    } else {
        None
    }
}

fn parse_opt_mac_at(buf: &Vec<u8>, pos: usize) -> (r: Option<(Option<Vec<u8>>, usize)>)
    requires
        pos <= buf@.len(),
    ensures
        match r {
            Some((o, np)) => {
                &&& pos <= np <= buf@.len()
                &&& parse_opt_mac(buf@.skip(pos as int)) == Some(
                    (opt_bytes_view(o), buf@.skip(np as int)),
                )
            },
            None => parse_opt_mac(buf@.skip(pos as int)) is None,
        },
{
    if buf.len() - pos < 1 {
        return None;
    }
    let tag = buf[pos];
    if tag == 0 {
        proof {
            assert(buf@.skip(pos as int).skip(1) =~= buf@.skip(pos as int + 1));
        }
        Some((None, pos + 1))
    } else if tag == 1 {
        proof {
            assert(buf@.skip(pos as int).skip(1) =~= buf@.skip(pos as int + 1));
        }
        match parse_raw_at(buf, pos + 1, 6) {
            None => None,
            Some((m, np)) => Some((Some(m), np)),
        }
    } else {
        None
    }
}

fn parse_ip_at(buf: &Vec<u8>, pos: usize) -> (r: Option<(IpNet, usize)>)
    requires
        pos <= buf@.len(),
    ensures
        match r {
            Some((a, np)) => {
                &&& pos <= np <= buf@.len()
                &&& parse_ip(buf@.skip(pos as int)) == Some((a@, buf@.skip(np as int)))
            },
            None => parse_ip(buf@.skip(pos as int)) is None,
        },
{
    if buf.len() - pos < 1 {
        return None;
    }
    let tag = buf[pos];
    if tag != 4 && tag != 6 {
        return None;
    }
    let alen: usize = if tag == 4 {
        4
    } else {
        16
    };
    proof {
        assert(buf@.skip(pos as int).skip(1) =~= buf@.skip(pos as int + 1));
    }
    match parse_raw_at(buf, pos + 1, alen) {
        None => None,
        Some((addr, p1)) => {
            if buf.len() - p1 < 1 {
                return None;
            }
            let prefix = buf[p1];
            proof {
                assert(buf@.skip(p1 as int).skip(1) =~= buf@.skip(p1 as int + 1));
                assert(buf@.skip(p1 as int)[0] == buf@[p1 as int]);
            }
            if tag == 4 {
                Some((IpNet::V4 { addr, prefix }, p1 + 1))
            } else {
                Some((IpNet::V6 { addr, prefix }, p1 + 1))
            }
        },
    }
}

spec fn prepend_ips(acc: Seq<IpNetV>, r: Option<(Seq<IpNetV>, Seq<u8>)>) -> Option<
    (Seq<IpNetV>, Seq<u8>),
> {
    match r {
        None => None,
        Some((items, rest)) => Some((acc + items, rest)),
    }
}

spec fn prepend_ifaces(acc: Seq<InterfaceV>, r: Option<(Seq<InterfaceV>, Seq<u8>)>) -> Option<
    (Seq<InterfaceV>, Seq<u8>),
> {
    match r {
        None => None,
        Some((items, rest)) => Some((acc + items, rest)),
    }
}

fn parse_ip_list_at(buf: &Vec<u8>, pos: usize, n: u32) -> (r: Option<(Vec<IpNet>, usize)>)
    requires
        pos <= buf@.len(),
    ensures
        match r {
            Some((v, np)) => {
                &&& pos <= np <= buf@.len()
                &&& parse_ip_seq(buf@.skip(pos as int), n as nat) == Some(
                    (ips_view(v), buf@.skip(np as int)),
                )
            },
            None => parse_ip_seq(buf@.skip(pos as int), n as nat) is None,
        },
{
    let mut v: Vec<IpNet> = Vec::new();
    let mut cur: usize = pos;
    let mut i: u32 = 0;
    proof {
        assert(ips_view(v) =~= Seq::<IpNetV>::empty());
        match parse_ip_seq(buf@.skip(pos as int), n as nat) {
            None => {},
            Some((items, rest)) => {
                assert(Seq::<IpNetV>::empty() + items =~= items);
            },
        }
    }
    while i < n
        invariant
            pos <= cur <= buf@.len(),
            i <= n,
            parse_ip_seq(buf@.skip(pos as int), n as nat) == prepend_ips(
                ips_view(v),
                parse_ip_seq(buf@.skip(cur as int), (n - i) as nat),
            ),
        decreases n - i,
    {
        match parse_ip_at(buf, cur) {
            None => {
                return None;
            },
            Some((a, np)) => {
                proof {
                    let scur = buf@.skip(cur as int);
                    let k = (n - i) as nat;
                    match parse_ip_seq(buf@.skip(np as int), (k - 1) as nat) {
                        None => {
                            assert(parse_ip_seq(scur, k) is None);
                        },
                        Some((items, rest2)) => {
                            assert(parse_ip_seq(scur, k) == Some((seq![a@] + items, rest2)));
                            assert(ips_view(v) + (seq![a@] + items) =~= (ips_view(v).push(a@))
                                + items);
                        },
                    }
                }
                let ghost oldv = v@;
                v.push(a);
                proof {
                    assert(ips_view(v) =~= oldv.map_values(|x: IpNet| x@).push(a@));
                }
                cur = np;
                i = i + 1;
            },
        }
    }
    proof {
        assert(ips_view(v) + Seq::<IpNetV>::empty() =~= ips_view(v));
    }
    Some((v, cur))
}

fn parse_iface_at(buf: &Vec<u8>, pos: usize) -> (r: Option<(Interface, usize)>)
    requires
        pos <= buf@.len(),
    ensures
        match r {
            Some((ifc, np)) => {
                &&& pos <= np <= buf@.len()
                &&& parse_iface(buf@.skip(pos as int)) == Some((ifc@, buf@.skip(np as int)))
            },
            None => parse_iface(buf@.skip(pos as int)) is None,
        },
{
    let (name, p1) = match parse_len_bytes_at(buf, pos) {
        None => return None,
        Some(x) => x,
    };
    let (mac, p2) = match parse_opt_mac_at(buf, p1) {
        None => return None,
        Some(x) => x,
    };
    let (cnt, p3) = match parse_u32_at(buf, p2) {
        None => return None,
        Some(x) => x,
    };
    let (addrs, p4) = match parse_ip_list_at(buf, p3, cnt) {
        None => return None,
        Some(x) => x,
    };
    Some((Interface { name, mac, addrs }, p4))
}

fn parse_iface_list_at(buf: &Vec<u8>, pos: usize, n: u32) -> (r: Option<(Vec<Interface>, usize)>)
    requires
        pos <= buf@.len(),
    ensures
        match r {
            Some((v, np)) => {
                &&& pos <= np <= buf@.len()
                &&& parse_iface_seq(buf@.skip(pos as int), n as nat) == Some(
                    (ifaces_view(v), buf@.skip(np as int)),
                )
            },
            None => parse_iface_seq(buf@.skip(pos as int), n as nat) is None,
        },
{
    let mut v: Vec<Interface> = Vec::new();
    let mut cur: usize = pos;
    let mut i: u32 = 0;
    proof {
        assert(ifaces_view(v) =~= Seq::<InterfaceV>::empty());
        match parse_iface_seq(buf@.skip(pos as int), n as nat) {
            None => {},
            Some((items, rest)) => {
                assert(Seq::<InterfaceV>::empty() + items =~= items);
            },
        }
    }
    while i < n
        invariant
            pos <= cur <= buf@.len(),
            i <= n,
            parse_iface_seq(buf@.skip(pos as int), n as nat) == prepend_ifaces(
                ifaces_view(v),
                parse_iface_seq(buf@.skip(cur as int), (n - i) as nat),
            ),
        decreases n - i,
    {
        match parse_iface_at(buf, cur) {
            None => {
                return None;
            },
            Some((ifc, np)) => {
                proof {
                    let scur = buf@.skip(cur as int);
                    let k = (n - i) as nat;
                    match parse_iface_seq(buf@.skip(np as int), (k - 1) as nat) {
                        None => {
                            assert(parse_iface_seq(scur, k) is None);
                        },
                        Some((items, rest2)) => {
                            assert(parse_iface_seq(scur, k) == Some((seq![ifc@] + items, rest2)));
                            assert(ifaces_view(v) + (seq![ifc@] + items) =~= (ifaces_view(v).push(
                                ifc@,
                            )) + items);
                        },
                    }
                }
                let ghost oldv = v@;
                v.push(ifc);
                proof {
                    assert(ifaces_view(v) =~= oldv.map_values(|x: Interface| x@).push(ifc@));
                }
                cur = np;
                i = i + 1;
            },
        }
    }
    proof {
        assert(ifaces_view(v) + Seq::<InterfaceV>::empty() =~= ifaces_view(v));
    }
    Some((v, cur))
}

fn parse_report_at(buf: &Vec<u8>, pos: usize) -> (r: Option<Report>)
    requires
        pos <= buf@.len(),
    ensures
        match r {
            Some(rep) => parse_report(buf@.skip(pos as int)) == Some(rep@),
            None => parse_report(buf@.skip(pos as int)) is None,
        },
{
    let (hostname, p1) = match parse_opt_bytes_at(buf, pos) {
        None => return None,
        Some(x) => x,
    };
    let (cnt, p2) = match parse_u32_at(buf, p1) {
        None => return None,
        Some(x) => x,
    };
    let (interfaces, p3) = match parse_iface_list_at(buf, p2, cnt) {
        None => return None,
        Some(x) => x,
    };
    if p3 != buf.len() {
        return None;
    }
    Some(Report { hostname, interfaces })
}

impl Report {
    /// Serializes this report and frames it uncompressed: a zero flag byte
    /// (bit 0 clear) followed by the payload. Succeeds exactly when the
    /// report fits the wire format's bounds, and the result decodes back to
    /// this report.
    pub fn encode(&self) -> (r: Result<Vec<u8>, EncodeError>)
        ensures
            match r {
                Ok(v) => {
                    &&& encodable_report(self@)
                    &&& v@ == seq![0u8] + ser_report(self@)
                    &&& v@.len() >= 2
                    &&& v@[0] == 0u8
                    &&& v@[0] & 1 == 0u8
                    &&& spec_decode(v@) == Ok::<ReportV, DecodeError>(self@)
                },
                Err(e) => !encodable_report(self@) && e == EncodeError::SerializationFailed,
            },
    {
        let payload = match report_payload(self) {
            Ok(p) => p,
            Err(e) => return Err(e),
        };
        let mut out: Vec<u8> = Vec::new();
        out.push(0u8);
        push_all(&mut out, &payload);
        proof {
            assert(out@ =~= seq![0u8] + ser_report(self@));
            assert(0u8 & 1 == 0u8) by (bit_vector);
            lemma_round_trip_uncompressed(self@);
        }
        Ok(out)
    }

    /// Serializes this report, compresses the payload, and frames it behind a
    /// flag byte with bit 0 set. Succeeds exactly when the report fits the
    /// wire format's bounds, and the result decodes back to this report.
    pub fn encode_compressed(&self) -> (r: Result<Vec<u8>, EncodeError>)
        ensures
            match r {
                Ok(v) => {
                    &&& encodable_report(self@)
                    &&& v@.len() >= 2
                    &&& v@[0] == 1u8
                    &&& v@[0] & 1 == 1u8
                    &&& v@.skip(1) == compress_of(ser_report(self@))
                    &&& spec_decode(v@) == Ok::<ReportV, DecodeError>(self@)
                },
                Err(e) => !encodable_report(self@) && e == EncodeError::SerializationFailed,
            },
    {
        let payload = match report_payload(self) {
            Ok(p) => p,
            Err(e) => return Err(e),
        };
        let compressed = lzma_compress_vec(&payload).unwrap();
        let mut out: Vec<u8> = Vec::new();
        out.push(1u8);
        push_all(&mut out, &compressed);
        proof {
            assert(out@ =~= seq![1u8] + compressed@);
            assert(out@.skip(1) =~= compressed@);
            assert(1u8 & 1 == 1u8) by (bit_vector);
            lemma_round_trip_compressed(self@, compressed@);
        }
        Ok(out)
    }

    /// Builds the report for the given hostname and raw interface list and
    /// returns its uncompressed envelope.
    pub fn new(hostname: Option<Vec<u8>>, raw: Vec<RawInterface>) -> (r: Result<
        Vec<u8>,
        EncodeError,
    >)
        ensures
            ({
                let rep = ReportV {
                    hostname: opt_bytes_view(hostname),
                    interfaces: spec_filter_ifaces(raw@.map_values(|x: RawInterface| x@)),
                };
                match r {
                    Ok(v) => {
                        &&& encodable_report(rep)
                        &&& v@ == seq![0u8] + ser_report(rep)
                        &&& v@[0] == 0u8
                        &&& spec_decode(v@) == Ok::<ReportV, DecodeError>(rep)
                    },
                    Err(e) => !encodable_report(rep) && e == EncodeError::SerializationFailed,
                }
            }),
    {
        let rep = Report::from_raw(hostname, raw);
        rep.encode()
    }

    /// Builds the report for the given hostname and raw interface list and
    /// returns its compressed envelope.
    pub fn new_compressed(hostname: Option<Vec<u8>>, raw: Vec<RawInterface>) -> (r: Result<
        Vec<u8>,
        EncodeError,
    >)
        ensures
            ({
                let rep = ReportV {
                    hostname: opt_bytes_view(hostname),
                    interfaces: spec_filter_ifaces(raw@.map_values(|x: RawInterface| x@)),
                };
                match r {
                    Ok(v) => {
                        &&& encodable_report(rep)
                        &&& v@[0] == 1u8
                        &&& v@.skip(1) == compress_of(ser_report(rep))
                        &&& spec_decode(v@) == Ok::<ReportV, DecodeError>(rep)
                    },
                    Err(e) => !encodable_report(rep) && e == EncodeError::SerializationFailed,
                }
            }),
    {
        let rep = Report::from_raw(hostname, raw);
        rep.encode_compressed()
    }

    /// Decodes an envelope: rejects buffers under two bytes as too short,
    /// dispatches on bit 0 of the flag byte, undoes the compression on the
    /// compressed path, and parses the payload, exactly as `spec_decode`
    /// states.
    pub fn decode(buf: &Vec<u8>) -> (r: Result<Report, DecodeError>)
        ensures
            buf@.len() < 2 ==> r == Err::<Report, DecodeError>(DecodeError::TooShort),
            match r {
                Ok(rep) => spec_decode(buf@) == Ok::<ReportV, DecodeError>(rep@),
                Err(e) => spec_decode(buf@) == Err::<ReportV, DecodeError>(e),
            },
    {
        if buf.len() < 2 {
            return Err(DecodeError::TooShort);
        }
        let flag = buf[0];
        if flag & 1 == 1 {
            let payload = match parse_raw_at(buf, 1, buf.len() - 1) {
                Some((p, _)) => p,
                None => return Err(DecodeError::BadCompression),
            };
            proof {
                assert(payload@ =~= buf@.skip(1));
            }
            match lzma_decompress_vec(&payload) {
                Some(d) => {
                    match parse_report_at(&d, 0) {
                        Some(rep) => {
                            proof {
                                assert(d@.skip(0) =~= d@);
                            }
                            Ok(rep)
                        },
                        None => {
                            proof {
                                assert(d@.skip(0) =~= d@);
                            }
                            Err(DecodeError::DeserializationFailed)
                        },
                    }
                },
                None => Err(DecodeError::BadCompression),
            }
        } else {
            match parse_report_at(buf, 1) {
                Some(rep) => Ok(rep),
                None => Err(DecodeError::DeserializationFailed),
            }
        }
    }
}

} // verus!
