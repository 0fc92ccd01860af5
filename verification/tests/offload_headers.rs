//! Segmentation offload headers and segments, and merging on the way back.
use reflex_tun::addr::{Ipv4Addr, SocketAddrV4};
use reflex_tun::checksum::checksum;
use reflex_tun::gro::{
    handle_gro, handle_gro_within, GroDisablementFlags, TcpGroTable, UdpGroTable,
};
use reflex_tun::gso::{
    gso_split, GsoError, GsoOptions, GsoType, VirtioNetHdr, VIRTIO_NET_HDR_F_NEEDS_CSUM,
    VIRTIO_NET_HDR_GSO_NONE, VIRTIO_NET_HDR_GSO_TCPV4, VIRTIO_NET_HDR_GSO_TCPV6,
    VIRTIO_NET_HDR_GSO_UDP_L4, VIRTIO_NET_HDR_LEN,
};
use reflex_tun::native_tun::build_gro_probe_segments;
use reflex_tun::udp::build_udp_reply_v4;

const TCP_FLAG_ACK: u8 = 0x10;
const TCP_FLAG_PSH: u8 = 0x08;

#[test]
fn test_virtio_net_hdr_encode_decode() {
    let hdr = VirtioNetHdr {
        flags: VIRTIO_NET_HDR_F_NEEDS_CSUM,
        gso_type: VIRTIO_NET_HDR_GSO_TCPV4,
        hdr_len: 40,
        gso_size: 1448,
        csum_start: 20,
        csum_offset: 16,
    };
    let mut buf = [0u8; VIRTIO_NET_HDR_LEN];
    hdr.encode(&mut buf).unwrap();
    let decoded = VirtioNetHdr::decode(&buf).unwrap();
    assert_eq!(decoded.flags, hdr.flags);
    assert_eq!(decoded.gso_type, hdr.gso_type);
    assert_eq!(decoded.hdr_len, hdr.hdr_len);
    assert_eq!(decoded.gso_size, hdr.gso_size);
    assert_eq!(decoded.csum_start, hdr.csum_start);
    assert_eq!(decoded.csum_offset, hdr.csum_offset);
}

#[test]
fn header_is_in_the_byte_order_of_the_machine() {
    let hdr = VirtioNetHdr {
        flags: 1,
        gso_type: 3,
        hdr_len: 0x0102,
        gso_size: 0x0304,
        csum_start: 0x0506,
        csum_offset: 0x0708,
    };
    let mut buf = [0u8; 10];
    hdr.encode_in(&mut buf, true).unwrap();
    assert_eq!(buf, [1, 3, 2, 1, 4, 3, 6, 5, 8, 7]);
    assert_eq!(VirtioNetHdr::decode_in(&buf, true), Ok(hdr));
    assert_eq!(VirtioNetHdr::decode_in(&buf, false).unwrap().hdr_len, 0x0201);
    hdr.encode_in(&mut buf, false).unwrap();
    assert_eq!(buf, [1, 3, 1, 2, 3, 4, 5, 6, 7, 8]);
    assert_eq!(VirtioNetHdr::decode_in(&buf, false), Ok(hdr));
    hdr.encode(&mut buf).unwrap();
    let mut native = vec![1u8, 3];
    for field in [0x0102u16, 0x0304, 0x0506, 0x0708] {
        native.extend_from_slice(&field.to_ne_bytes());
    }
    assert_eq!(buf.to_vec(), native);
    let mut again = [0u8; 10];
    VirtioNetHdr::decode(&buf).unwrap().encode(&mut again).unwrap();
    assert_eq!(again, buf);
}

#[test]
fn short_header_is_refused() {
    let hdr = VirtioNetHdr::default();
    assert_eq!(VirtioNetHdr::decode(&[0u8; 9]), Err(GsoError::HeaderTooShort));
    let mut buf = [7u8; 9];
    assert_eq!(hdr.encode(&mut buf), Err(GsoError::HeaderTooShort));
    assert_eq!(hdr.encode_in(&mut buf, false), Err(GsoError::HeaderTooShort));
    assert_eq!(buf, [7u8; 9]);
}

#[test]
fn header_to_options() {
    let with = |gso_type: u8| VirtioNetHdr {
        flags: VIRTIO_NET_HDR_F_NEEDS_CSUM,
        gso_type,
        hdr_len: 60,
        gso_size: 1400,
        csum_start: 40,
        csum_offset: 16,
    };
    let o = with(VIRTIO_NET_HDR_GSO_TCPV6).to_gso_options().unwrap();
    assert_eq!(o.gso_type, GsoType::TcpV6);
    assert_eq!((o.hdr_len, o.gso_size, o.csum_start, o.csum_offset), (60, 1400, 40, 16));
    assert!(o.needs_csum);
    assert_eq!(with(VIRTIO_NET_HDR_GSO_NONE).to_gso_options().unwrap().gso_type, GsoType::NoGso);
    assert_eq!(with(VIRTIO_NET_HDR_GSO_UDP_L4).to_gso_options().unwrap().gso_type, GsoType::UdpL4);
    assert_eq!(with(9).to_gso_options(), Err(GsoError::UnsupportedType(9)));
    assert!(with(VIRTIO_NET_HDR_GSO_TCPV4).is_gso());
    assert!(!with(VIRTIO_NET_HDR_GSO_NONE).is_gso());
}

#[test]
fn test_gso_split_tcp_v4() {
    let hdr_len = 40usize;
    let gso_size = 1448u16;
    let payload_len = gso_size as usize * 2;
    let total_len = hdr_len + payload_len;
    let mut input = vec![0u8; total_len];
    input[0] = 0x45; // v4, IHL=5
    input[2..4].copy_from_slice(&(total_len as u16).to_be_bytes());
    input[4..6].copy_from_slice(&100u16.to_be_bytes()); // ID
    input[6] = 0x40; // DF
    input[8] = 64; // TTL
    input[9] = 6; // TCP
    input[12..16].copy_from_slice(&[10, 0, 0, 1]); // src
    input[16..20].copy_from_slice(&[10, 0, 0, 2]); // dst
    let ip_csum = !checksum(&input[..20], 0);
    input[10..12].copy_from_slice(&ip_csum.to_be_bytes());
    input[20..22].copy_from_slice(&12345u16.to_be_bytes()); // src port
    input[22..24].copy_from_slice(&80u16.to_be_bytes()); // dst port
    input[24..28].copy_from_slice(&1000u32.to_be_bytes()); // seq
    input[28..32].copy_from_slice(&2000u32.to_be_bytes()); // ack
    input[32] = 0x50; // data offset = 5
    input[33] = TCP_FLAG_ACK | TCP_FLAG_PSH; // flags
    input[34..36].copy_from_slice(&65535u16.to_be_bytes()); // window
    for i in 0..payload_len {
        input[hdr_len + i] = (i % 256) as u8;
    }

    let options = GsoOptions {
        gso_type: GsoType::TcpV4,
        hdr_len: hdr_len as u16,
        csum_start: 20,
        csum_offset: 16,
        gso_size,
        needs_csum: true,
    };

    let mut out_bufs: Vec<Vec<u8>> = vec![Vec::new(); 4];
    let mut sizes = [0usize; 4];
    let n = gso_split(&input, &options, &mut out_bufs, &mut sizes).unwrap();
    assert_eq!(n, 2);
    assert_eq!(sizes[0], hdr_len + gso_size as usize);
    assert_eq!(sizes[1], hdr_len + gso_size as usize);

    let seg0 = &out_bufs[0];
    assert_eq!(seg0.len(), hdr_len + gso_size as usize);
    assert_eq!(u16::from_be_bytes([seg0[4], seg0[5]]), 100);
    let seq0 = u32::from_be_bytes([seg0[24], seg0[25], seg0[26], seg0[27]]);
    assert_eq!(seq0, 1000);

    let seg1 = &out_bufs[1];
    assert_eq!(u16::from_be_bytes([seg1[4], seg1[5]]), 101);
    let seq1 = u32::from_be_bytes([seg1[24], seg1[25], seg1[26], seg1[27]]);
    assert_eq!(seq1, 1000 + gso_size as u32);

    // The payloads make up the whole, only the last segment pushes, and the
    // checksums are valid.
    let mut payload = seg0[40..].to_vec();
    payload.extend_from_slice(&seg1[40..]);
    assert_eq!(payload, input[40..].to_vec());
    assert_eq!(seg0[33], TCP_FLAG_ACK);
    assert_eq!(seg1[33], TCP_FLAG_ACK | TCP_FLAG_PSH);
    for seg in [seg0, seg1] {
        assert_eq!(checksum(&seg[..20], 0), 0xffff);
        let mut pseudo = seg[12..20].to_vec();
        pseudo.extend_from_slice(&[0, 6]);
        pseudo.extend_from_slice(&((seg.len() - 20) as u16).to_be_bytes());
        pseudo.extend_from_slice(&seg[20..]);
        assert_eq!(checksum(&pseudo, 0), 0xffff);
    }
}

#[test]
fn gso_split_errors() {
    let options = GsoOptions {
        gso_type: GsoType::TcpV4,
        hdr_len: 40,
        csum_start: 20,
        csum_offset: 16,
        gso_size: 10,
        needs_csum: true,
    };
    let mut input = vec![0u8; 100];
    input[0] = 0x45;
    input[32] = 0x50;
    let mut bufs: Vec<Vec<u8>> = vec![Vec::new(); 2];
    let mut sizes = [0usize; 2];
    assert_eq!(
        gso_split(&input, &options, &mut bufs, &mut sizes),
        Err(GsoError::TooManySegments)
    );
    assert_eq!(
        gso_split(&input[..37], &options, &mut bufs, &mut sizes),
        Err(GsoError::ChecksumOffset)
    );
    assert_eq!(
        gso_split(&input[..38], &options, &mut bufs, &mut sizes),
        Err(GsoError::PacketTooShort)
    );
    let short_header = GsoOptions { hdr_len: 19, ..options };
    assert_eq!(
        gso_split(&input, &short_header, &mut bufs, &mut sizes),
        Err(GsoError::HeaderLength)
    );
    let cut_tcp = GsoOptions { hdr_len: 30, gso_size: 5, ..options };
    assert_eq!(
        gso_split(&input[..39], &cut_tcp, &mut bufs, &mut sizes),
        Err(GsoError::TcpHeaderTooShort)
    );
    let none = GsoOptions { gso_type: GsoType::NoGso, ..Default::default() };
    let mut no_bufs: Vec<Vec<u8>> = Vec::new();
    let mut no_sizes: [usize; 0] = [];
    assert_eq!(
        gso_split(&input, &none, &mut no_bufs, &mut no_sizes),
        Err(GsoError::NoBuffers)
    );
}

#[test]
fn test_gso_split_no_gso() {
    let input = vec![0x45u8; 40];
    let options = GsoOptions { gso_type: GsoType::NoGso, ..Default::default() };
    let mut out_bufs: Vec<Vec<u8>> = vec![Vec::new(); 1];
    let mut sizes = [0usize; 1];
    let n = gso_split(&input, &options, &mut out_bufs, &mut sizes).unwrap();
    assert_eq!(n, 1);
    assert_eq!(out_bufs[0], input);
}

#[test]
fn test_checksum_basic() {
    assert_eq!(checksum(&[], 0), 0);
    assert_eq!(checksum(&[0x01], 0), 0x0100);
}

#[test]
fn test_handle_gro_noop() {
    let mut bufs = vec![{
        let mut b = vec![0u8; VIRTIO_NET_HDR_LEN + 20];
        b[VIRTIO_NET_HDR_LEN] = 0x45;
        b
    }];
    let offset = VIRTIO_NET_HDR_LEN;
    let mut tcp_table = TcpGroTable::new();
    let mut udp_table = UdpGroTable::new();
    let mut to_write = Vec::new();
    handle_gro(
        &mut bufs,
        offset,
        &mut tcp_table,
        &mut udp_table,
        GroDisablementFlags::default(),
        &mut to_write,
    )
    .unwrap();
    assert_eq!(to_write, vec![0]);
}

fn tcp_packet(seq: u32, payload: &[u8]) -> Vec<u8> {
    let total = 40 + payload.len();
    let mut p = vec![0u8; total];
    p[0] = 0x45;
    p[2..4].copy_from_slice(&(total as u16).to_be_bytes());
    p[6] = 0x40;
    p[8] = 64;
    p[9] = 6;
    p[12..16].copy_from_slice(&[10, 0, 0, 1]);
    p[16..20].copy_from_slice(&[10, 0, 0, 2]);
    p[20..22].copy_from_slice(&1234u16.to_be_bytes());
    p[22..24].copy_from_slice(&80u16.to_be_bytes());
    p[24..28].copy_from_slice(&seq.to_be_bytes());
    p[28..32].copy_from_slice(&7u32.to_be_bytes());
    p[32] = 0x50;
    p[33] = TCP_FLAG_ACK;
    p[40..].copy_from_slice(payload);
    let ip = !checksum(&p[..20], 0);
    p[10..12].copy_from_slice(&ip.to_be_bytes());
    let mut pseudo = p[12..20].to_vec();
    pseudo.extend_from_slice(&[0, 6]);
    pseudo.extend_from_slice(&((total - 20) as u16).to_be_bytes());
    pseudo.extend_from_slice(&p[20..]);
    let tcp = !checksum(&pseudo, 0);
    p[36..38].copy_from_slice(&tcp.to_be_bytes());
    p
}

fn framed(p: Vec<u8>) -> Vec<u8> {
    let mut b = Vec::with_capacity(4096);
    b.resize(VIRTIO_NET_HDR_LEN, 0);
    b.extend_from_slice(&p);
    b
}

#[test]
fn consecutive_segments_are_merged() {
    let mut bufs = vec![
        framed(tcp_packet(100, &[1u8; 50])),
        framed(tcp_packet(150, &[2u8; 50])),
        framed(tcp_packet(200, &[3u8; 20])),
    ];
    let mut to_write = Vec::new();
    handle_gro(
        &mut bufs,
        VIRTIO_NET_HDR_LEN,
        &mut TcpGroTable::new(),
        &mut UdpGroTable::new(),
        GroDisablementFlags::default(),
        &mut to_write,
    )
    .unwrap();
    assert_eq!(to_write, vec![0]);
    let merged = &bufs[0];
    assert_eq!(merged.len(), 10 + 40 + 120);
    let hdr = VirtioNetHdr::decode(merged).unwrap();
    assert_eq!(hdr.gso_type, VIRTIO_NET_HDR_GSO_TCPV4);
    assert_eq!((hdr.gso_size, hdr.hdr_len, hdr.csum_start, hdr.csum_offset), (50, 40, 20, 16));
    let mut payload = vec![1u8; 50];
    payload.extend_from_slice(&[2u8; 50]);
    payload.extend_from_slice(&[3u8; 20]);
    assert_eq!(merged[50..].to_vec(), payload);
    assert_eq!(u16::from_be_bytes([merged[12], merged[13]]), 160);
    assert_eq!(checksum(&merged[10..30], 0), 0xffff);
}

#[test]
fn merging_can_be_switched_off_and_needs_room() {
    let mut flags = GroDisablementFlags::default();
    flags.disable_tcp();
    assert!(!flags.can_tcp() && flags.can_udp());
    let mut bufs =
        vec![framed(tcp_packet(100, &[1u8; 50])), framed(tcp_packet(150, &[2u8; 50]))];
    let mut to_write = Vec::new();
    handle_gro(
        &mut bufs,
        VIRTIO_NET_HDR_LEN,
        &mut TcpGroTable::new(),
        &mut UdpGroTable::new(),
        flags,
        &mut to_write,
    )
    .unwrap();
    assert_eq!(to_write, vec![0, 1]);

    // A first buffer with no spare capacity takes no second packet in.
    let mut first = framed(tcp_packet(100, &[1u8; 50]));
    first.shrink_to_fit();
    let mut bufs = vec![first, framed(tcp_packet(150, &[2u8; 50]))];
    let mut to_write = Vec::new();
    handle_gro(
        &mut bufs,
        VIRTIO_NET_HDR_LEN,
        &mut TcpGroTable::new(),
        &mut UdpGroTable::new(),
        GroDisablementFlags::default(),
        &mut to_write,
    )
    .unwrap();
    assert_eq!(to_write, vec![0, 1]);
}

#[test]
fn merged_headers_follow_the_byte_order() {
    for little in [true, false] {
        let mut bufs =
            vec![framed(tcp_packet(100, &[1u8; 50])), framed(tcp_packet(150, &[2u8; 50]))];
        let mut to_write = vec![9];
        handle_gro_within(
            &mut bufs,
            vec![4096, 4096],
            VIRTIO_NET_HDR_LEN,
            &mut TcpGroTable::new(),
            &mut UdpGroTable::new(),
            GroDisablementFlags::default(),
            &mut to_write,
            little,
        )
        .unwrap();
        // What was to be written before stays in front.
        assert_eq!(to_write, vec![9, 0]);
        let sizes = if little { [40, 0, 50, 0] } else { [0, 40, 0, 50] };
        assert_eq!(bufs[0][2..6], sizes);
        let hdr = VirtioNetHdr::decode_in(&bufs[0], little).unwrap();
        assert_eq!((hdr.hdr_len, hdr.gso_size), (40, 50));
    }
}

#[test]
fn a_table_that_was_reset_is_as_good_as_new() {
    let from = SocketAddrV4 { ip: Ipv4Addr::new(10, 0, 0, 1), port: 53 };
    let to = SocketAddrV4 { ip: Ipv4Addr::new(10, 0, 0, 2), port: 99 };
    let batch = || {
        vec![
            framed(tcp_packet(100, &[1u8; 50])),
            framed(build_udp_reply_v4(from, to, &[5u8; 30])),
            framed(tcp_packet(150, &[2u8; 50])),
            framed(build_udp_reply_v4(from, to, &[6u8; 30])),
        ]
    };
    let mut tcp_table = TcpGroTable::new();
    let mut udp_table = UdpGroTable::new();
    let mut outcomes = Vec::new();
    for _ in 0..2 {
        let mut bufs = batch();
        let mut to_write = Vec::new();
        let r = handle_gro(
            &mut bufs,
            VIRTIO_NET_HDR_LEN,
            &mut tcp_table,
            &mut udp_table,
            GroDisablementFlags::default(),
            &mut to_write,
        );
        outcomes.push((r, bufs, to_write));
        assert!(!tcp_table.items.is_empty() && !udp_table.items.is_empty());
        tcp_table.reset();
        udp_table.reset();
        assert!(tcp_table.items.is_empty() && udp_table.items.is_empty());
    }
    assert_eq!(outcomes[0], outcomes[1]);
    assert_eq!(outcomes[0].0, Ok(()));
}

#[test]
fn bad_offset_is_refused() {
    let mut bufs = vec![vec![0u8; 40]];
    let mut to_write = Vec::new();
    let r = handle_gro(
        &mut bufs,
        60,
        &mut TcpGroTable::new(),
        &mut UdpGroTable::new(),
        GroDisablementFlags::default(),
        &mut to_write,
    );
    assert_eq!(r, Err(GsoError::InvalidOffset));
}

fn merged(packets: &[Vec<u8>]) -> (Vec<Vec<u8>>, Vec<usize>) {
    let mut bufs: Vec<Vec<u8>> = packets
        .iter()
        .map(|p| {
            let mut b = Vec::with_capacity(4096);
            b.resize(VIRTIO_NET_HDR_LEN, 0);
            b.extend_from_slice(p);
            b
        })
        .collect();
    let mut to_write = Vec::new();
    handle_gro(
        &mut bufs,
        VIRTIO_NET_HDR_LEN,
        &mut TcpGroTable::new(),
        &mut UdpGroTable::new(),
        GroDisablementFlags::default(),
        &mut to_write,
    )
    .unwrap();
    (bufs, to_write)
}

fn split(buf: &[u8]) -> Vec<Vec<u8>> {
    let options = VirtioNetHdr::decode(buf).unwrap().to_gso_options().unwrap();
    let mut out: Vec<Vec<u8>> = vec![Vec::new(); 8];
    let mut sizes = [0usize; 8];
    let n = gso_split(&buf[VIRTIO_NET_HDR_LEN..], &options, &mut out, &mut sizes).unwrap();
    out.truncate(n);
    out
}

#[test]
fn merged_tcp_packets_split_back() {
    let segments = build_gro_probe_segments(None);
    let (bufs, to_write) = merged(&segments);
    assert_eq!(to_write, [0]);
    let pkt = &bufs[0][VIRTIO_NET_HDR_LEN..];
    assert_eq!(pkt.len(), 40 + 20 + 20);
    assert_eq!(u16::from_be_bytes([pkt[2], pkt[3]]), 80);
    assert_eq!(checksum(&pkt[..20], 0), 0xffff);
    assert_eq!(split(&bufs[0]), segments);
    // The second one first: it is joined from the front.
    let turned = vec![segments[1].clone(), segments[0].clone()];
    let (bufs, to_write) = merged(&turned);
    assert_eq!(to_write, [0]);
    assert_eq!(split(&bufs[0]), segments);
}

#[test]
fn merged_udp_packets_split_back() {
    let src = SocketAddrV4 {
        ip: Ipv4Addr::new(10, 0, 0, 1),
        port: 1000,
    };
    let dst = SocketAddrV4 {
        ip: Ipv4Addr::new(10, 0, 0, 2),
        port: 2000,
    };
    let first = build_udp_reply_v4(src, dst, b"twelve bytes");
    let second = build_udp_reply_v4(src, dst, b"eight by");
    let (bufs, to_write) = merged(&[first.clone(), second.clone()]);
    assert_eq!(to_write, [0]);
    let pkt = &bufs[0][VIRTIO_NET_HDR_LEN..];
    assert_eq!(u16::from_be_bytes([pkt[24], pkt[25]]), 8 + 12 + 8);
    let pieces = split(&bufs[0]);
    assert_eq!(pieces.len(), 2);
    assert_eq!(pieces[0][28..], first[28..]);
    assert_eq!(pieces[1][28..], second[28..]);
}

#[test]
fn a_batch_of_any_size_passes_without_merging() {
    let mut flags = GroDisablementFlags::default();
    flags.disable_tcp();
    flags.disable_udp();
    let count = 70_000usize;
    let mut bufs: Vec<Vec<u8>> = vec![vec![7u8; 14]; count];
    let mut to_write = vec![5];
    let mut tcp_table = TcpGroTable::new();
    let mut udp_table = UdpGroTable::new();
    handle_gro(
        &mut bufs,
        VIRTIO_NET_HDR_LEN + 1,
        &mut tcp_table,
        &mut udp_table,
        flags,
        &mut to_write,
    )
    .unwrap();
    assert_eq!(to_write.len(), count + 1);
    assert_eq!((to_write[0], to_write[1], to_write[count]), (5, 0, count - 1));
    let mut expected = vec![7u8];
    expected.extend_from_slice(&[0u8; 10]);
    expected.extend_from_slice(&[7u8; 3]);
    assert!(bufs.iter().all(|b| *b == expected));
    assert!(tcp_table.items.is_empty() && udp_table.items.is_empty());
}

#[test]
fn an_item_takes_in_what_it_can_count() {
    let src = SocketAddrV4 { ip: Ipv4Addr::new(10, 0, 0, 1), port: 1000 };
    let dst = SocketAddrV4 { ip: Ipv4Addr::new(10, 0, 0, 2), port: 2000 };
    let mut one = vec![0u8; VIRTIO_NET_HDR_LEN];
    one.extend_from_slice(&build_udp_reply_v4(src, dst, b"x"));
    let count = 65_538usize;
    let mut bufs: Vec<Vec<u8>> = vec![one; count];
    let mut to_write = Vec::new();
    let mut udp_table = UdpGroTable::new();
    handle_gro_within(
        &mut bufs,
        vec![100_000; count],
        VIRTIO_NET_HDR_LEN,
        &mut TcpGroTable::new(),
        &mut udp_table,
        GroDisablementFlags::default(),
        &mut to_write,
        true,
    )
    .unwrap();
    assert_eq!(to_write, vec![0, 65_536]);
    assert_eq!(udp_table.items[0].num_merged, u16::MAX);
    assert_eq!(udp_table.items[1].num_merged, 1);
    assert_eq!(bufs[0].len(), 10 + 28 + 65_536);
}
