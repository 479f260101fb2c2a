use opb::{
    demux, demux_track, parse_chunks, parse_commands, parse_header, parse_instruments, parse_opb, read_u7,
    size_u7, track_of_addr, write_u7, OpbCommand, OpbData, OpbError, OpbFormat, OpbStage,
};

fn header_bytes(fmt: u8, size: u32, ninst: u32, nchunks: u32) -> Vec<u8> {
    let mut v: Vec<u8> = b"OPBin1\0".to_vec();
    v.push(fmt);
    v.extend_from_slice(&size.to_be_bytes());
    v.extend_from_slice(&ninst.to_be_bytes());
    v.extend_from_slice(&nchunks.to_be_bytes());
    v
}

fn sample_file() -> Vec<u8> {
    let mut v = header_bytes(0, 0, 1, 2);
    // one instrument: nine 16-bit fields
    for x in [0x0001u16, 0x0021, 0x0010, 0x00f0, 0x0000, 0x0022, 0x0011, 0x00f1, 0xfffe] {
        v.extend_from_slice(&x.to_be_bytes());
    }
    // two dictionary entries: count, register, value
    v.extend_from_slice(&[0x03, 0xa0, 0x41]);
    v.extend_from_slice(&[0x01, 0xb0, 0x32]);
    // commands: delta, bank, entry index
    v.extend_from_slice(&[0x00, 0x00, 0x00]);
    v.extend_from_slice(&[0x00, 0x01, 0x01]);
    v.extend_from_slice(&[0x85, 0x01, 0x00, 0x01]);
    v
}

fn cmd(addr: u16, time: u128, order_index: usize) -> OpbCommand {
    OpbCommand { addr, data: 0, time, order_index, data_index: None }
}

#[test]
fn test_read_opb() {
    let input = sample_file();
    let file = parse_opb(&input).unwrap();
    println!("{:#?}", file);
    assert_eq!(file.header.fmt, OpbFormat::Standard);
    assert_eq!(file.instruments.len(), 1);
    assert_eq!(file.data_map.len(), 2);
    assert_eq!(file.cmd_stream.len(), 3);
    assert_eq!(file.tracks.len(), 19);
}

#[test]
fn header_only_prefix_is_accepted() {
    let input = header_bytes(0, 0x10, 0, 0);
    let (h, next) = parse_header(&input).unwrap();
    assert_eq!(h.fmt, OpbFormat::Standard);
    assert_eq!(h.size, 0x10);
    assert_eq!(h.num_instruments, 0);
    assert_eq!(h.num_chunks, 0);
    assert_eq!(h.id, *b"OPBin1\0");
    assert_eq!(next, 20);
    let f = parse_opb(&input).unwrap();
    assert!(f.instruments.is_empty());
    assert!(f.data_map.is_empty());
    assert!(f.cmd_stream.is_empty());
    assert!(f.tracks.iter().all(|t| t.is_empty()));
}

#[test]
fn header_fields_are_big_endian() {
    let input = header_bytes(1, 0x01020304, 0, 0);
    let (h, _) = parse_header(&input).unwrap();
    assert_eq!(h.fmt, OpbFormat::Raw);
    assert_eq!(h.size, 16909060);
}

#[test]
fn altered_magic_is_refused() {
    let mut input = header_bytes(0, 0x10, 0, 0);
    input[0] = b'X';
    assert_eq!(parse_header(&input), Err(OpbError::NotAnOpbFile([b'X', b'P', b'B', b'i', b'n', b'1', 0])));
    assert_eq!(parse_opb(&input).unwrap_err(), OpbError::NotAnOpbFile(*b"XPBin1\0"));
}

#[test]
fn every_single_byte_change_of_magic_is_refused() {
    for i in 0..7 {
        let mut input = header_bytes(0, 0, 0, 0);
        input[i] ^= 0x01;
        assert!(matches!(parse_header(&input), Err(OpbError::NotAnOpbFile(_))));
    }
}

#[test]
fn format_two_is_unsupported() {
    let input = header_bytes(2, 0x10, 0, 0);
    assert_eq!(parse_header(&input), Err(OpbError::UnsupportedFormat(2)));
    assert_eq!(parse_opb(&input).unwrap_err(), OpbError::UnsupportedFormat(2));
}

#[test]
fn short_header_is_truncated() {
    let input = header_bytes(0, 0x10, 0, 0);
    for k in 0..20 {
        assert_eq!(parse_header(&input[..k]), Err(OpbError::Truncated(OpbStage::Header)));
    }
}

#[test]
fn varint_scenarios() {
    assert_eq!(read_u7(&[0x05], 0), Ok((5, 1)));
    assert_eq!(read_u7(&[0x85, 0x01], 0), Ok((133, 2)));
    assert_eq!(read_u7(&[0xff, 0x85, 0x01, 0x07], 1), Ok((133, 3)));
}

#[test]
fn varint_fourth_byte_is_not_masked() {
    assert_eq!(read_u7(&[0x80, 0x80, 0x80, 0x80], 0), Ok((1 << 28, 4)));
    assert_eq!(read_u7(&[0x80, 0x80, 0x80, 0x81, 0x01], 0), Ok(((0x81 << 21), 4)));
}

#[test]
fn varint_non_minimal_is_tolerated() {
    assert_eq!(read_u7(&[0x85, 0x80, 0x00], 0), Ok((5, 3)));
    assert_eq!(read_u7(&[0x80, 0x00], 0), Ok((0, 2)));
}

#[test]
fn varint_truncated() {
    assert_eq!(read_u7(&[], 0), Err(OpbError::Truncated(OpbStage::Varint)));
    assert_eq!(read_u7(&[0x85], 0), Err(OpbError::Truncated(OpbStage::Varint)));
    assert_eq!(read_u7(&[0x85, 0x80, 0x80], 0), Err(OpbError::Truncated(OpbStage::Varint)));
}

#[test]
fn varint_round_trip() {
    for v in [0u32, 1, 5, 127, 128, 133, 16383, 16384, 2097151, 2097152, 0x0fff_ffff] {
        let e = write_u7(v);
        assert_eq!(e.len(), size_u7(v));
        assert_eq!(read_u7(&e, 0), Ok((v, e.len())));
        let mut longer = e.clone();
        longer.push(0xff);
        assert_eq!(read_u7(&longer, 0), Ok((v, e.len())));
    }
    assert_eq!(write_u7(133), vec![0x85, 0x01]);
    assert_eq!(write_u7(2097152), vec![0x80, 0x80, 0x80, 0x01]);
}

#[test]
fn varint_sizes() {
    assert_eq!(size_u7(0), 1);
    assert_eq!(size_u7(127), 1);
    assert_eq!(size_u7(128), 2);
    assert_eq!(size_u7(16383), 2);
    assert_eq!(size_u7(16384), 3);
    assert_eq!(size_u7(2097151), 3);
    assert_eq!(size_u7(2097152), 4);
    assert_eq!(size_u7(u32::MAX), 4);
}

#[test]
fn instruments_are_read_in_order() {
    let mut buf: Vec<u8> = vec![0xaa];
    for i in 0..18u8 {
        buf.push(0);
        buf.push(i);
    }
    buf[1] = 0xff;
    buf[2] = 0xfe;
    let (insts, next) = parse_instruments(&buf, 1, 2).unwrap();
    assert_eq!(next, 37);
    assert_eq!(insts[0].feed_conn, -2);
    assert_eq!(insts[0].modulator.characteristic, 1);
    assert_eq!(insts[0].modulator.wave_select, 4);
    assert_eq!(insts[0].carrier.characteristic, 5);
    assert_eq!(insts[0].carrier.wave_select, 8);
    assert_eq!(insts[0].index, 0);
    assert_eq!(insts[1].feed_conn, 9);
    assert_eq!(insts[1].index, 1);
    assert_eq!(parse_instruments(&buf, 1, 3), Err(OpbError::Truncated(OpbStage::Instruments)));
    assert_eq!(parse_instruments(&buf[..36], 1, 2), Err(OpbError::Truncated(OpbStage::Instruments)));
}

#[test]
fn dictionary_entries_are_copied() {
    let buf: Vec<u8> = vec![0x03, 0x00, 0x01, 0x85, 0x01, 0x00, 0x01];
    let (d, next) = parse_chunks(&buf, 0, 2, OpbFormat::Standard).unwrap();
    assert_eq!(next, 7);
    assert_eq!(d[0], OpbData { count: 3, args: vec![0x00, 0x01] });
    assert_eq!(d[1], OpbData { count: 133, args: vec![0x00, 0x01] });
    let (r, next) = parse_chunks(&buf, 0, 1, OpbFormat::Raw).unwrap();
    assert_eq!(next, 4);
    assert_eq!(r[0], OpbData { count: 3, args: vec![0x00, 0x01, 0x85] });
    assert_eq!(parse_chunks(&buf, 0, 3, OpbFormat::Standard), Err(OpbError::Truncated(OpbStage::Dictionary)));
    assert_eq!(parse_chunks(&buf[..4], 0, 2, OpbFormat::Standard), Err(OpbError::Truncated(OpbStage::Dictionary)));
}

#[test]
fn dictionary_reference_expands_unchanged() {
    let mut input = header_bytes(0, 0, 0, 1);
    input.extend_from_slice(&[0x03, 0x00, 0x01]);
    input.extend_from_slice(&[0x00, 0x00, 0x00]);
    let f = parse_opb(&input).unwrap();
    assert_eq!(f.data_map, vec![OpbData { count: 3, args: vec![0x00, 0x01] }]);
    assert_eq!(f.cmd_stream, vec![OpbCommand { addr: 0x000, data: 0x01, time: 0, order_index: 0, data_index: Some(0) }]);
    assert_eq!(f.tracks[18], f.cmd_stream);
    assert!(f.tracks[..18].iter().all(|t| t.is_empty()));
}

#[test]
fn bad_dictionary_reference() {
    let mut input = header_bytes(0, 0, 0, 1);
    input.extend_from_slice(&[0x03, 0x00, 0x01]);
    input.extend_from_slice(&[0x00, 0x00, 0x01]);
    assert_eq!(parse_opb(&input).unwrap_err(), OpbError::BadDictionaryReference { index: 1, len: 1 });
}

#[test]
fn raw_commands_carry_address_and_data() {
    let buf: Vec<u8> = vec![0x02, 0x01, 0xa3, 0x7f, 0x85, 0x01, 0x00, 0x20, 0x10];
    let cmds = parse_commands(&buf, 0, OpbFormat::Raw, &vec![]).unwrap();
    assert_eq!(
        cmds,
        vec![
            OpbCommand { addr: 0x1a3, data: 0x7f, time: 2, order_index: 0, data_index: None },
            OpbCommand { addr: 0x020, data: 0x10, time: 135, order_index: 1, data_index: None },
        ]
    );
    assert_eq!(parse_commands(&buf[..8], 0, OpbFormat::Raw, &vec![]), Err(OpbError::Truncated(OpbStage::Commands)));
}

#[test]
fn standard_commands_use_bank_and_entry() {
    let dict = vec![OpbData { count: 1, args: vec![0xb2, 0x20] }];
    let buf: Vec<u8> = vec![0x04, 0x03, 0x00];
    let cmds = parse_commands(&buf, 0, OpbFormat::Standard, &dict).unwrap();
    assert_eq!(cmds, vec![OpbCommand { addr: 0x1b2, data: 0x20, time: 4, order_index: 0, data_index: Some(0) }]);
    assert_eq!(parse_commands(&buf[..2], 0, OpbFormat::Standard, &dict), Err(OpbError::Truncated(OpbStage::Commands)));
    assert_eq!(parse_commands(&buf[..1], 0, OpbFormat::Standard, &dict), Err(OpbError::Truncated(OpbStage::Commands)));
}

#[test]
fn whole_file_truncated_at_each_stage() {
    let input = sample_file();
    assert_eq!(parse_opb(&input[..10]).unwrap_err(), OpbError::Truncated(OpbStage::Header));
    assert_eq!(parse_opb(&input[..30]).unwrap_err(), OpbError::Truncated(OpbStage::Instruments));
    assert_eq!(parse_opb(&input[..40]).unwrap_err(), OpbError::Truncated(OpbStage::Dictionary));
    assert_eq!(parse_opb(&input[..input.len() - 1]).unwrap_err(), OpbError::Truncated(OpbStage::Commands));
}

#[test]
fn sample_file_decodes() {
    let f = parse_opb(&sample_file()).unwrap();
    assert_eq!(f.instruments[0].feed_conn, 1);
    assert_eq!(f.instruments[0].carrier.wave_select, -2);
    assert_eq!(
        f.cmd_stream,
        vec![
            OpbCommand { addr: 0x0a0, data: 0x41, time: 0, order_index: 0, data_index: Some(0) },
            OpbCommand { addr: 0x1b0, data: 0x32, time: 0, order_index: 1, data_index: Some(1) },
            OpbCommand { addr: 0x0b0, data: 0x32, time: 133, order_index: 2, data_index: Some(1) },
        ]
    );
    assert_eq!(f.tracks[0], vec![f.cmd_stream[0], f.cmd_stream[2]]);
    assert_eq!(f.tracks[9], vec![f.cmd_stream[1]]);
}

#[test]
fn channel_mapping() {
    assert_eq!(track_of_addr(0xa3), 3);
    assert_eq!(track_of_addr(0xb8), 8);
    assert_eq!(track_of_addr(0xc0), 0);
    assert_eq!(track_of_addr(0x1b0), 9);
    assert_eq!(track_of_addr(0x1c8), 17);
    assert_eq!(track_of_addr(0x20), 0);
    assert_eq!(track_of_addr(0x23), 0);
    assert_eq!(track_of_addr(0x28), 3);
    assert_eq!(track_of_addr(0x35), 8);
    assert_eq!(track_of_addr(0x55), 8);
    assert_eq!(track_of_addr(0xe9), 4);
    assert_eq!(track_of_addr(0x121), 10);
    assert_eq!(track_of_addr(0x01), 18);
    assert_eq!(track_of_addr(0x26), 18);
    assert_eq!(track_of_addr(0xa9), 18);
    assert_eq!(track_of_addr(0xbd), 18);
    assert_eq!(track_of_addr(0x105), 18);
}

#[test]
fn demux_is_repeatable_and_ordered() {
    let stream = vec![cmd(0xa0, 0, 0), cmd(0x01, 0, 1), cmd(0xb0, 0, 2), cmd(0xa1, 5, 3), cmd(0xa0, 5, 4), cmd(0x1a0, 9, 5)];
    let a = demux(&stream);
    let b = demux(&stream);
    assert_eq!(a, b);
    assert_eq!(a.len(), 19);
    assert_eq!(a[0], vec![stream[0], stream[2], stream[4]]);
    assert_eq!(a[1], vec![stream[3]]);
    assert_eq!(a[9], vec![stream[5]]);
    assert_eq!(a[18], vec![stream[1]]);
    for t in &a {
        for w in t.windows(2) {
            assert!(w[0].time < w[1].time || (w[0].time == w[1].time && w[0].order_index < w[1].order_index));
        }
    }
    let again = demux(&a[0]);
    assert_eq!(again[0], a[0]);
    assert!(again.iter().enumerate().all(|(i, t)| i == 0 || t.is_empty()));
    assert_eq!(demux_track(&stream, 0), a[0]);
    assert!(demux(&vec![]).iter().all(|t| t.is_empty()));
}
