#![allow(non_snake_case)]

//! The frame codec: composing and parsing the Ethernet header, the optional
//! VLAN tag, the GOOSE header, the PDU bytes and the optional PRP trailer.
//!
//! Encoding checks the destination buffer's capacity before any byte is
//! written and otherwise produces exactly `wire::frame_bytes`; decoding
//! agrees exactly with `wire::decode_packet`, returning `None` for frames
//! that belong to other traffic, an error for malformed GOOSE frames, and
//! the reconstructed packet otherwise.

use crate::basic_decoder::read_be;
use crate::basic_encoder::{push_slice, push_u_be};
use crate::error::GooseError;
use crate::model::{HdrModel, PacketModel, PrpModel};
use crate::pdu_decoder::decodeIECGoosePdu;
use crate::pdu_encoder::encodeIECGoosePdu;
use crate::types::{
    prp_view, EthernetHeader, IECGooseHeader, IECGoosePacket, IECGoosePdu, IECPRP1, IECPRPLAN,
};
use crate::wire::{
    decode_eth, ErrModel, decode_goose_hdr, decode_packet, decode_prp, eth_bytes, frame_bytes,
    goose_hdr_bytes, lemma_be_val_bound, lemma_p256_values, lemma_u_be_len, lemma_u_be_mod,
    pdu_bytes, prp_bytes, prp_frame_size, u_be, FrameResult,
};
use vstd::arithmetic::div_mod::{
    lemma_add_mod_noop, lemma_multiply_divide_lt, lemma_small_mod,
};
use vstd::prelude::*;

verus! {

/// Encodes a whole packet into `buffer` starting at `pos` and returns the
/// number of bytes written. When fewer than the frame's bytes remain the
/// call fails with "buffer too small" and writes nothing.
pub fn encodeGoosePacket(pkt: &IECGoosePacket, buffer: &mut Vec<u8>, pos: usize) -> (r: Result<
    usize,
    GooseError,
>)
    ensures
        match r {
            Ok(n) => {
                &&& n == frame_bytes(pkt@).len()
                &&& pos + n <= old(buffer)@.len()
                &&& final(buffer)@.len() == old(buffer)@.len()
                &&& final(buffer)@ == old(buffer)@.subrange(0, pos as int) + frame_bytes(pkt@)
                    + old(buffer)@.subrange((pos + n) as int, old(buffer)@.len() as int)
            },
            Err(e) => {
                &&& final(buffer)@ == old(buffer)@
                &&& pos + frame_bytes(pkt@).len() > old(buffer)@.len()
                &&& e.message@ == "buffer too small"@
                &&& e.pos == pos
            },
        },
{
    let mut frame: Vec<u8> = Vec::new();
    encodeGooseFrame(&pkt.eth_hdr, &pkt.goose_hdr, &pkt.pdu, &pkt.prp, &mut frame);
    proof {
        assert(pkt@ == PacketModel {
            eth_hdr: pkt.eth_hdr@,
            goose_hdr: pkt.goose_hdr@,
            pdu: pkt.pdu@,
            prp: prp_view(pkt.prp),
        });
        assert(frame@ =~= frame_bytes(pkt@));
    }
    let n = frame.len();
    if pos > buffer.len() || n > buffer.len() - pos {
        return Err(GooseError { message: "buffer too small".to_owned(), pos });
    }
    let blen = buffer.len();
    let mut i: usize = 0;
    while i < n
        invariant
            i <= n,
            n == frame@.len(),
            pos + n <= buffer@.len(),
            blen == buffer@.len(),
            buffer@.len() == old(buffer)@.len(),
            forall|j: int| 0 <= j < pos ==> buffer@[j] == old(buffer)@[j],
            forall|j: int| 0 <= j < i ==> buffer@[pos + j] == frame@[j],
            forall|j: int| pos + n <= j < buffer@.len() ==> buffer@[j] == old(buffer)@[j],
        decreases n - i,
    {
        let b = frame[i];
        buffer.set(pos + i, b);
        i = i + 1;
    }
    proof {
        assert(final(buffer)@ =~= old(buffer)@.subrange(0, pos as int) + frame@ + old(
            buffer,
        )@.subrange((pos + n) as int, old(buffer)@.len() as int));
    }
    Ok(n)
}

/// Encodes the Ethernet header, the GOOSE header, the PDU, and the PRP
/// trailer when one is supplied, appending everything to `out`.
fn encodeGooseFrame(
    header: &EthernetHeader,
    goose_header: &IECGooseHeader,
    pdu: &IECGoosePdu,
    prp: &Option<IECPRP1>,
    out: &mut Vec<u8>,
)
    ensures
        final(out)@ == old(out)@ + frame_bytes(
            PacketModel {
                eth_hdr: header@,
                goose_hdr: goose_header@,
                pdu: pdu@,
                prp: prp_view(*prp),
            },
        ),
{
    let ghost model = PacketModel {
        eth_hdr: header@,
        goose_hdr: goose_header@,
        pdu: pdu@,
        prp: prp_view(*prp),
    };
    let mut pdu_buf: Vec<u8> = Vec::new();
    encodeIECGoosePdu(pdu, &mut pdu_buf);
    proof {
        assert(pdu_buf@ =~= pdu_bytes(pdu@));
    }
    encodeEthernetHeader(header, out);
    encodeGooseHeader(goose_header, out, pdu_buf.len());
    push_slice(out, pdu_buf.as_slice());
    if let Some(p) = prp {
        let vlan_extra: u64 = if header.VLANID.is_some() {
            4
        } else {
            0
        };
        let fs: u16 = (((pdu_buf.len() as u64) % 0x1000 + 10 + vlan_extra) % 0x1000) as u16;
        proof {
            lemma_add_mod_noop(pdu_buf@.len() as int, 10 + vlan_extra as int, 0x1000);
            lemma_small_mod((10 + vlan_extra) as nat, 0x1000);
            assert(fs as int % 0x1000 == prp_frame_size(model) as int % 0x1000) by {
                lemma_small_mod(fs as nat, 0x1000);
            }
        }
        encodeIECPRP1(p, out, fs);
        proof {
            assert(prp_bytes(p@, fs as nat) == prp_bytes(p@, prp_frame_size(model)));
            assert(final(out)@ =~= old(out)@ + frame_bytes(model));
        }
    } else {
        proof {
            assert(final(out)@ =~= old(out)@ + frame_bytes(model));
        }
    }
}

/// Encodes destination and source MAC addresses and, when a VLAN id is
/// present, the 0x8100 marker followed by the id.
fn encodeEthernetHeader(header: &EthernetHeader, out: &mut Vec<u8>)
    ensures
        final(out)@ == old(out)@ + eth_bytes(header@),
{
    push_slice(out, header.dstAddr.as_slice());
    push_slice(out, header.srcAddr.as_slice());
    if let Some(vlanid) = header.VLANID {
        out.push(0x81);
        out.push(0x00);
        push_u_be(out, vlanid as u64, 2);
    }
    assert(final(out)@ =~= old(out)@ + eth_bytes(header@));
}

/// Encodes the GOOSE ethertype marker, the APPID, the length field (the PDU
/// length plus the fixed 8-byte adjustment, truncated to 16 bits) and the
/// two reserved zero fields.
fn encodeGooseHeader(header: &IECGooseHeader, out: &mut Vec<u8>, goose_len: usize)
    ensures
        final(out)@ == old(out)@ + goose_hdr_bytes(header@.APPID, goose_len as nat),
{
    out.push(0x88);
    out.push(0xb8);
    push_slice(out, header.APPID.as_slice());
    let adj: u64 = (goose_len as u64) % 0x1_0000 + 8;
    push_u_be(out, adj, 2);
    proof {
        lemma_p256_values();
        lemma_u_be_mod(adj as nat, 2);
        lemma_u_be_mod((goose_len + 8) as nat, 2);
        lemma_add_mod_noop(goose_len as int, 8, 0x1_0000);
        lemma_small_mod(8, 0x1_0000);
        assert(adj as int % 0x1_0000 == (goose_len + 8) as int % 0x1_0000);
        assert(u_be(adj as nat, 2) == u_be((goose_len + 8) as nat, 2));
    }
    out.push(0);
    out.push(0);
    out.push(0);
    out.push(0);
    assert(final(out)@ =~= old(out)@ + goose_hdr_bytes(header@.APPID, goose_len as nat));
}

/// Encodes the PRP trailer: the sequence number, the LAN nibble packed over
/// the 12-bit frame size, and the fixed PRP marker.
fn encodeIECPRP1(prp: &IECPRP1, out: &mut Vec<u8>, frame_size: u16)
    ensures
        final(out)@ == old(out)@ + prp_bytes(prp@, frame_size as nat),
{
    push_u_be(out, prp.sequence as u64, 2);
    let nib: u16 = match prp.lan {
        IECPRPLAN::LAN_A => 0xa,
        IECPRPLAN::LAN_B => 0xb,
    };
    let fsize: u16 = nib * 0x1000 + frame_size % 0x1000;
    push_u_be(out, fsize as u64, 2);
    out.push(0x88);
    out.push(0xfb);
    assert(final(out)@ =~= old(out)@ + prp_bytes(prp@, frame_size as nat));
}

/// The eight timestamp bytes for the given seconds and fractional-seconds
/// values: four bytes of seconds, the top three bytes of the fraction, and
/// the fixed quality byte 0x18.
pub open spec fn utc_time_bytes(secs: u32, frac: u32) -> Seq<u8> {
    u_be(secs as nat, 4) + u_be(frac as nat, 4).subrange(0, 3) + seq![0x18u8]
}

/// Builds the eight timestamp bytes for the given seconds and fraction.
fn time_array(secs: u32, frac: u32) -> (r: [u8; 8])
    ensures
        r@ == utc_time_bytes(secs, frac),
{
    let mut sv: Vec<u8> = Vec::new();
    push_u_be(&mut sv, secs as u64, 4);
    let mut fv: Vec<u8> = Vec::new();
    push_u_be(&mut fv, frac as u64, 4);
    proof {
        lemma_u_be_len(secs as nat, 4);
        lemma_u_be_len(frac as nat, 4);
    }
    let r: [u8; 8] = [sv[0], sv[1], sv[2], sv[3], fv[0], fv[1], fv[2], 0x18];
    proof {
        assert(r@ =~= utc_time_bytes(secs, frac));
    }
    r
}

/// Relies on `SystemTime::now` and `SystemTime::duration_since`, with
/// `Duration::as_secs` and `Duration::subsec_micros` converting the result:
/// the seconds and microseconds of the current time since the Unix epoch
/// (both zero when the clock reads earlier than the epoch). The
/// microseconds part is below one million, as `subsec_micros` documents.
#[verifier::external_body]
fn unix_now() -> (r: (u64, u32))
    ensures
        r.1 < 1_000_000,
{
    match std::time::SystemTime::now().duration_since(std::time::UNIX_EPOCH) {
        Ok(d) => (d.as_secs(), d.subsec_micros()),
        Err(_) => (0, 0),
    }
}

/// Reads the clock and returns the current time in the on-wire timestamp
/// layout: 4-byte seconds, 3-byte binary fraction of a second, and the
/// fixed quality byte 0x18 last.
pub fn getTimeMs() -> (r: [u8; 8])
    ensures
        r@.len() == 8,
        r@[7] == 0x18,
        exists|s: u64, m: u32|
            m < 1_000_000 && r@ == #[trigger] utc_time_bytes(
                (s % 0x1_0000_0000) as u32,
                (((m as u64) * 0x1_0000_0000) / 1_000_000) as u32,
            ),
{
    let (secs64, micros) = unix_now();
    let secs: u32 = ((secs64 % 0x1_0000_0000) as u32);
    let prod: u64 = (micros as u64) * 0x1_0000_0000;
    proof {
        assert((micros as u64) * 0x1_0000_0000 <= 999_999u64 * 0x1_0000_0000)
            by (nonlinear_arith)
            requires
                micros < 1_000_000,
        ;
        lemma_multiply_divide_lt(prod as int, 1_000_000, 0x1_0000_0000);
    }
    let frac: u32 = (prod / 1_000_000) as u32;
    let r = time_array(secs, frac);
    proof {
        lemma_u_be_len(secs as nat, 4);
        lemma_u_be_len(frac as nat, 4);
        assert(r@[7] == 0x18);
        assert(exists|s: u64, m: u32|
            m < 1_000_000 && r@ == #[trigger] utc_time_bytes(
                (s % 0x1_0000_0000) as u32,
                (((m as u64) * 0x1_0000_0000) / 1_000_000) as u32,
            )) by {
            assert(micros < 1_000_000 && r@ == utc_time_bytes(
                (secs64 % 0x1_0000_0000) as u32,
                (((micros as u64) * 0x1_0000_0000) / 1_000_000) as u32,
            ));
        }
    }
    r
}

/// Parses the PRP trailer from the final six bytes of the buffer when they
/// end in the PRP marker; a missing trailer is `Ok(None)`, not an error,
/// but a trailer whose LAN nibble names neither LAN is one.
fn decodeIECPRP1(buffer: &[u8], pos: &mut usize) -> (r: Result<Option<IECPRP1>, GooseError>)
    ensures
        match r {
            Ok(Some(p)) => decode_prp(buffer@, *old(pos) as nat) matches Ok(Some((np, pm)))
                && *final(pos) == np && p@ == pm,
            Ok(None) => decode_prp(buffer@, *old(pos) as nat) == Ok::<
                Option<(nat, PrpModel)>,
                ErrModel,
            >(None)
                && *final(pos) == *old(pos),
            Err(e) => decode_prp(buffer@, *old(pos) as nat) matches Err(f) && f.message
                == e.message@ && f.pos == e.pos && *final(pos) == *old(pos),
        },
{
    let blen = buffer.len();
    let p = *pos;
    if blen >= 6 && p == blen - 6 && buffer[p + 4] == 0x88 && buffer[p + 5] == 0xfb {
        let seqn = read_be(buffer, p, 2) as u16;
        let fsize = read_be(buffer, p + 2, 2) as u16;
        proof {
            lemma_p256_values();
            lemma_be_val_bound(buffer@.subrange(p as int, p as int + 2));
            lemma_be_val_bound(buffer@.subrange(p as int + 2, p as int + 4));
        }
        let nib = fsize / 0x1000;
        if nib == 0xa {
            *pos = p + 6;
            Ok(
                Some(
                    IECPRP1 {
                        sequence: seqn,
                        lan: IECPRPLAN::LAN_A,
                        frame_size: fsize % 0x1000,
                    },
                ),
            )
        } else if nib == 0xb {
            *pos = p + 6;
            Ok(
                Some(
                    IECPRP1 {
                        sequence: seqn,
                        lan: IECPRPLAN::LAN_B,
                        frame_size: fsize % 0x1000,
                    },
                ),
            )
        } else {
            Err(GooseError { message: "IEC PRP LAN undefined".to_owned(), pos: p })
        }
    } else {
        Ok(None)
    }
}

/// Parses both MAC addresses and, when the 0x8100 marker follows them, the
/// VLAN id. Fails only when fewer than 18 bytes remain.
fn decodeEthernetHeader(buffer: &[u8], pos: &mut usize) -> (r: Result<EthernetHeader, GooseError>)
    ensures
        match r {
            Ok(h) => decode_eth(buffer@, *old(pos) as nat) matches Ok((np, hm)) && *final(pos)
                == np && h@ == hm,
            Err(e) => decode_eth(buffer@, *old(pos) as nat) matches Err(f) && f.message
                == e.message@ && f.pos == e.pos && *final(pos) == *old(pos),
        },
{
    let blen = buffer.len();
    let p = *pos;
    if blen < 18 || p > blen - 18 {
        return Err(GooseError { message: "Buffer too short".to_owned(), pos: p });
    }
    let dst: [u8; 6] = [
        buffer[p],
        buffer[p + 1],
        buffer[p + 2],
        buffer[p + 3],
        buffer[p + 4],
        buffer[p + 5],
    ];
    let src: [u8; 6] = [
        buffer[p + 6],
        buffer[p + 7],
        buffer[p + 8],
        buffer[p + 9],
        buffer[p + 10],
        buffer[p + 11],
    ];
    proof {
        assert(dst@ =~= buffer@.subrange(p as int, p as int + 6));
        assert(src@ =~= buffer@.subrange(p as int + 6, p as int + 12));
    }
    if buffer[p + 12] == 0x81 && buffer[p + 13] == 0x00 {
        let vlanid = read_be(buffer, p + 14, 2) as u16;
        proof {
            lemma_p256_values();
            lemma_be_val_bound(buffer@.subrange(p as int + 14, p as int + 16));
        }
        *pos = p + 16;
        Ok(EthernetHeader { srcAddr: src, dstAddr: dst, VLANID: Some(vlanid) })
    } else {
        *pos = p + 12;
        Ok(EthernetHeader { srcAddr: src, dstAddr: dst, VLANID: None })
    }
}

/// Parses the GOOSE header. `None` means the ethertype is not the GOOSE
/// marker: the frame belongs to other traffic and is not an error.
fn decodeGooseHeader(buffer: &[u8], pos: &mut usize) -> (r: Option<
    Result<IECGooseHeader, GooseError>,
>)
    ensures
        match r {
            Some(Ok(h)) => decode_goose_hdr(buffer@, *old(pos) as nat) matches Ok(
                Some((np, hm)),
            ) && *final(pos) == np && h@ == hm,
            Some(Err(e)) => decode_goose_hdr(buffer@, *old(pos) as nat) matches Err(f)
                && f.message == e.message@ && f.pos == e.pos && *final(pos) == *old(pos),
            None => decode_goose_hdr(buffer@, *old(pos) as nat) == Ok::<
                Option<(nat, HdrModel)>,
                ErrModel,
            >(None),
        },
{
    let blen = buffer.len();
    let p = *pos;
    if blen < 10 || p > blen - 10 {
        return Some(Err(GooseError { message: "Buffer too short".to_owned(), pos: p }));
    }
    if !(buffer[p] == 0x88 && buffer[p + 1] == 0xb8) {
        return None;
    }
    let appid: [u8; 2] = [buffer[p + 2], buffer[p + 3]];
    let length = read_be(buffer, p + 4, 2) as u16;
    proof {
        lemma_p256_values();
        lemma_be_val_bound(buffer@.subrange(p as int + 4, p as int + 6));
        assert(appid@ =~= buffer@.subrange(p as int + 2, p as int + 4));
    }
    *pos = p + 10;
    Some(Ok(IECGooseHeader { APPID: appid, length }))
}

/// Decodes a whole frame at `pos`. `None` means the frame is not GOOSE
/// traffic (not an error); `Some(Err(_))` is a malformed GOOSE frame;
/// `Some(Ok(_))` is a fully reconstructed packet, with the PRP trailer
/// present exactly when the buffer's final six bytes carry one.
pub fn decodeGoosePacket(buffer: &[u8], pos: usize) -> (r: Option<
    Result<IECGoosePacket, GooseError>,
>)
    ensures
        match r {
            Some(Ok(pkt)) => decode_packet(buffer@, pos as nat) matches FrameResult::Packet(pm)
                && pkt@ == pm,
            Some(Err(e)) => decode_packet(buffer@, pos as nat) matches FrameResult::Malformed(f)
                && f.message == e.message@ && f.pos == e.pos,
            None => decode_packet(buffer@, pos as nat) is Other,
        },
{
    let mut p = pos;
    let header = match decodeEthernetHeader(buffer, &mut p) {
        Ok(h) => h,
        Err(e) => {
            return Some(Err(e));
        },
    };
    let goose_header = match decodeGooseHeader(buffer, &mut p) {
        Some(Ok(h)) => h,
        Some(Err(e)) => {
            return Some(Err(e));
        },
        None => {
            return None;
        },
    };
    let pdu = match decodeIECGoosePdu(buffer, &mut p) {
        Ok(v) => v,
        Err(e) => {
            return Some(Err(e));
        },
    };
    let prp = match decodeIECPRP1(buffer, &mut p) {
        Ok(v) => v,
        Err(e) => {
            return Some(Err(e));
        },
    };
    Some(Ok(IECGoosePacket { eth_hdr: header, goose_hdr: goose_header, pdu, prp }))
}

} // verus!
