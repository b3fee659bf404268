use zahttp::bitio::BitW;
use zahttp::gzip::{crc32, gzip_encode, GZIP_CAP};
use zahttp::huffman::{dist_code, emit_lit, len_code, lit_code, rev_bits};
use zahttp::lz77::{hash3, GZIP_MAX_IN};
use zahttp::ranges::{fill_gzip_body, fill_range_body, RANGE_TOTAL};

/// Bits of a stream, least significant first.
struct Bits<'a> {
    data: &'a [u8],
    pos: usize,
}

impl Bits<'_> {
    fn bit(&mut self) -> u32 {
        let b = (self.data[self.pos / 8] >> (self.pos % 8)) & 1;
        self.pos += 1;
        b as u32
    }

    fn low(&mut self, n: u32) -> u32 {
        let mut v = 0;
        for i in 0..n {
            v |= self.bit() << i;
        }
        v
    }

    fn high(&mut self, n: u32) -> u32 {
        let mut v = 0;
        for _ in 0..n {
            v = v * 2 + self.bit();
        }
        v
    }

    fn symbol(&mut self) -> u32 {
        let seven = self.high(7);
        if seven <= 0x17 {
            return 256 + seven;
        }
        let eight = seven * 2 + self.bit();
        if eight <= 0xBF {
            return eight - 0x30;
        }
        if eight <= 0xC7 {
            return 280 + eight - 0xC0;
        }
        144 + eight * 2 + self.bit() - 0x190
    }
}

const LENS: [(u32, u32); 29] = [
    (3, 0), (4, 0), (5, 0), (6, 0), (7, 0), (8, 0), (9, 0), (10, 0), (11, 1), (13, 1), (15, 1), (17, 1), (19, 2),
    (23, 2), (27, 2), (31, 2), (35, 3), (43, 3), (51, 3), (59, 3), (67, 4), (83, 4), (99, 4), (115, 4), (131, 5),
    (163, 5), (195, 5), (227, 5), (258, 0),
];

const DISTS: [(u32, u32); 30] = [
    (1, 0), (2, 0), (3, 0), (4, 0), (5, 1), (7, 1), (9, 2), (13, 2), (17, 3), (25, 3), (33, 4), (49, 4), (65, 5),
    (97, 5), (129, 6), (193, 6), (257, 7), (385, 7), (513, 8), (769, 8), (1025, 9), (1537, 9), (2049, 10),
    (3073, 10), (4097, 11), (6145, 11), (8193, 12), (12289, 12), (16385, 13), (24577, 13),
];

fn gunzip(member: &[u8]) -> Vec<u8> {
    assert_eq!(member[..10], [0x1F, 0x8B, 8, 0, 0, 0, 0, 0, 0, 3]);
    let body = &member[10..member.len() - 8];
    let mut bits = Bits { data: body, pos: 0 };
    assert_eq!(bits.low(1), 1);
    assert_eq!(bits.low(2), 1);
    let mut out: Vec<u8> = Vec::new();
    loop {
        let s = bits.symbol();
        if s < 256 {
            out.push(s as u8);
        } else if s == 256 {
            break;
        } else {
            let (base, extra) = LENS[(s - 257) as usize];
            let len = base + bits.low(extra);
            let (dbase, dextra) = DISTS[bits.high(5) as usize];
            let dist = (dbase + bits.low(dextra)) as usize;
            for _ in 0..len {
                out.push(out[out.len() - dist]);
            }
        }
    }
    assert_eq!((bits.pos + 7) / 8, body.len());
    let tail = &member[member.len() - 8..];
    assert_eq!(tail[..4], crc32(&out).to_le_bytes());
    assert_eq!(tail[4..], (out.len() as u32).to_le_bytes());
    out
}

fn encoded(input: &[u8]) -> Vec<u8> {
    let mut room = vec![0u8; GZIP_CAP];
    let n = gzip_encode(input, &mut room).unwrap();
    room[..n].to_vec()
}

#[test]
fn gzip_reads_back() {
    for input in [&b""[..], b"a", b"abc", b"aaaaaaaaaaaaaaaaaaaaaaaaa", b"abcabcabcabcabcabcabcxyz", &[0xFFu8; 1000]] {
        assert_eq!(gunzip(&encoded(input)), input);
    }
}

#[test]
fn gzip_of_long_inputs_reads_back() {
    let text: Vec<u8> = (0..60000u32).map(|i| b"the quick brown fox "[(i * i % 20) as usize]).collect();
    let packed = encoded(&text);
    assert!(packed.len() < text.len() / 2);
    assert_eq!(gunzip(&packed), text);
}

#[test]
fn gzip_of_the_body_fits_its_room() {
    let mut body = [0u8; RANGE_TOTAL];
    fill_range_body(&mut body);
    let mut gz = [0u8; GZIP_CAP];
    let n = fill_gzip_body(&body, &mut gz);
    assert!(n > 0 && n <= GZIP_CAP);
    assert_eq!(gunzip(&gz[..n]), body);
}

#[test]
fn gzip_refuses_what_does_not_fit() {
    let mut small = [7u8; 20];
    assert_eq!(gzip_encode(b"hello, hello, hello", &mut small), None);
    let long = vec![0u8; GZIP_MAX_IN + 1];
    let mut room = vec![5u8; GZIP_CAP];
    assert_eq!(gzip_encode(&long, &mut room), None);
    assert!(room.iter().all(|&b| b == 5));
    let mut tiny = [5u8; 17];
    assert_eq!(gzip_encode(b"", &mut tiny), None);
    assert_eq!(tiny, [5u8; 17]);
}

#[test]
fn gzip_leaves_the_rest_of_the_room_alone() {
    let mut room = [9u8; 64];
    let n = gzip_encode(b"abc", &mut room).unwrap();
    assert!(room[n..].iter().all(|&b| b == 9));
}

#[test]
fn checksum_vector() {
    assert_eq!(crc32(b"123456789"), 0xCBF43926);
    assert_eq!(crc32(b""), 0);
}

#[test]
fn code_tables() {
    assert_eq!(lit_code(0), (0x30, 8));
    assert_eq!(lit_code(144), (0x190, 9));
    assert_eq!(lit_code(256), (0, 7));
    assert_eq!(lit_code(287), (0xC7, 8));
    assert_eq!(len_code(3), (257, 0, 0));
    assert_eq!(len_code(12), (265, 1, 1));
    assert_eq!(len_code(258), (285, 0, 0));
    assert_eq!(dist_code(1), (0, 0, 0));
    assert_eq!(dist_code(6), (4, 1, 1));
    assert_eq!(dist_code(32768), (29, 13, 8191));
    assert_eq!(rev_bits(0b1101, 4), 0b1011);
    assert_eq!(rev_bits(1, 32), 0x8000_0000);
    assert_eq!(rev_bits(0b11, 33), 0x8000_0000);
    assert_eq!(rev_bits(0x8000_0000, 40), 0x100);
    assert_eq!(rev_bits(u32::MAX, 64), 0);
    assert!(hash3(1, 2, 3) < 8192);
    assert_eq!(hash3(0, 1, 1), 33);
}

#[test]
fn bits_are_packed_from_the_low_end() {
    let mut room = [0u8; 4];
    let mut w = BitW::new(&mut room);
    w.bits(0b1, 1);
    w.bits(0b01, 2);
    emit_lit(&mut w, 256);
    w.flush();
    assert!(w.ok);
    assert_eq!(w.pos, 2);
    assert_eq!(room[..2], [0b011, 0]);
}
