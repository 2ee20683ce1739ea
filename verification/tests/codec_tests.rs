use mcbase64x32::CodecError;
use mcbase64x32::codec::decode;
use mcbase64x32::codec::encode;
use mcbase64x32::reader::BitReader;
use mcbase64x32::table::AlphabetTable;
use mcbase64x32::writer::BitWriter;

const ALPHA: &str = "ABCDEFGHIJKLMNOPQRSTUVWXYZabcdefghijklmnopqrstuvwxyz0123456789+/";

fn alpha_chars() -> Vec<char> {
    ALPHA.chars().collect()
}

fn primary_table() -> AlphabetTable {
    let a = alpha_chars();
    let mut toks: Vec<String> = Vec::new();
    for i in 0..2048usize {
        let mut s = String::new();
        s.push(a[i / 64]);
        s.push(a[i % 64]);
        toks.push(s);
    }
    AlphabetTable::new(toks, 2, 2048).unwrap()
}

fn tail_table() -> AlphabetTable {
    let a = alpha_chars();
    let mut toks: Vec<String> = Vec::new();
    for i in 0..64usize {
        let mut s = String::new();
        s.push(a[i]);
        toks.push(s);
    }
    AlphabetTable::new(toks, 1, 64).unwrap()
}

fn sample_bytes(len: usize) -> Vec<u8> {
    let mut v = Vec::new();
    for i in 0..len {
        v.push(((i * 31 + 7) % 256) as u8);
    }
    v
}

#[test]
fn empty_input() {
    let p = primary_table();
    let t = tail_table();
    assert_eq!(encode(&p, &t, &[]), "");
    assert_eq!(decode(&p, &t, "").unwrap(), Vec::<u8>::new());
}

#[test]
fn round_trip_various_lengths() {
    let p = primary_table();
    let t = tail_table();
    for &len in &[0usize, 1, 2, 3, 10, 11, 100, 1000] {
        let data = sample_bytes(len);
        let text = encode(&p, &t, &data);
        let back = decode(&p, &t, text.as_str()).unwrap();
        assert_eq!(back, data, "round trip failed at length {}", len);
    }
}

#[test]
fn length_relation() {
    let p = primary_table();
    let t = tail_table();
    for len in 0usize..=40 {
        let data = sample_bytes(len);
        let text = encode(&p, &t, &data);
        let full = (len * 8) / 11;
        let tail_bits = (len * 8) % 11;
        let extra = if tail_bits == 0 {
            0
        } else if tail_bits <= 6 {
            1
        } else {
            2
        };
        assert_eq!(text.chars().count(), 2 * full + extra, "length {}", len);
    }
}

#[test]
fn deterministic_encoding() {
    let p = primary_table();
    let t = tail_table();
    let data = sample_bytes(37);
    let first = encode(&p, &t, &data);
    let _ = encode(&p, &t, &sample_bytes(5));
    let _ = decode(&p, &t, first.as_str()).unwrap();
    let second = encode(&p, &t, &data);
    assert_eq!(first, second);
}

#[test]
fn rejects_unknown_pair() {
    let p = primary_table();
    let t = tail_table();
    let r = decode(&p, &t, "AA!!");
    assert_eq!(r, Err(CodecError::UnknownSymbol));
}

#[test]
fn rejects_unknown_tail_char() {
    let p = primary_table();
    let t = tail_table();
    let r = decode(&p, &t, "AA!");
    assert_eq!(r, Err(CodecError::UnknownSymbol));
}

#[test]
fn table_round_trip_every_index() {
    let p = primary_table();
    for i in 0..2048usize {
        let tok = p.token_at(i).unwrap().clone();
        assert_eq!(p.index_of(tok.as_str()), Ok(i));
    }
    let t = tail_table();
    for i in 0..64usize {
        let tok = t.token_at(i).unwrap().clone();
        assert_eq!(t.index_of(tok.as_str()), Ok(i));
    }
}

#[test]
fn zero_byte_scenario_base36() {
    // An abstract alphabet: two base-36 digits for the primary table, one
    // base-36 digit for the tail table.
    let digits: Vec<char> = "0123456789abcdefghijklmnopqrstuvwxyz".chars().collect();
    let mut ptoks: Vec<String> = Vec::new();
    for i in 0..1296usize {
        let mut s = String::new();
        s.push(digits[i / 36]);
        s.push(digits[i % 36]);
        ptoks.push(s);
    }
    let p = AlphabetTable::new(ptoks, 2, 1296).unwrap();
    let mut ttoks: Vec<String> = Vec::new();
    for i in 0..36usize {
        let mut s = String::new();
        s.push(digits[i]);
        ttoks.push(s);
    }
    let t = AlphabetTable::new(ttoks, 1, 36).unwrap();
    // One zero byte: eight leftover bits, shifted to eleven, value 0 << 3 = 0,
    // so exactly one primary token.
    let text = encode(&p, &t, &[0u8]);
    assert_eq!(text, "00");
    let back = decode(&p, &t, "00").unwrap();
    assert_eq!(back, vec![0u8]);
}

#[test]
fn encode_known_values() {
    let p = primary_table();
    let t = tail_table();
    // One 0xFF byte: tail of 8 bits, value 255 << 3 = 2040; token 2040 is
    // ALPHA[31] then ALPHA[56].
    assert_eq!(encode(&p, &t, &[0xFFu8]), "f4");
    // Two zero bytes: one full group (value 0), then 5 leftover zero bits
    // shifted to 6, through the tail table.
    assert_eq!(encode(&p, &t, &[0u8, 0u8]), "AAA");
}

#[test]
fn decode_known_values() {
    let p = primary_table();
    let t = tail_table();
    // One pair: 11 bits, of which 8 make a byte and 3 are dropped.
    assert_eq!(decode(&p, &t, "AA").unwrap(), vec![0u8]);
    // One pair and a tail char: 17 bits, 16 of them two bytes.
    assert_eq!(decode(&p, &t, "AAA").unwrap(), vec![0u8, 0u8]);
    assert_eq!(decode(&p, &t, "f4").unwrap(), vec![0xFFu8]);
}

#[test]
fn table_construction_rejects_bad_input() {
    let mk = |items: &[&str]| -> Vec<String> { items.iter().map(|s| s.to_string()).collect() };
    // Wrong size.
    assert_eq!(
        AlphabetTable::new(mk(&["ab", "cd"]), 2, 3).unwrap_err(),
        CodecError::MalformedTable
    );
    // Wrong width.
    assert_eq!(
        AlphabetTable::new(mk(&["ab", "c"]), 2, 2).unwrap_err(),
        CodecError::MalformedTable
    );
    // A duplicate token.
    assert_eq!(
        AlphabetTable::new(mk(&["ab", "ab"]), 2, 2).unwrap_err(),
        CodecError::MalformedTable
    );
    // A small valid table passes.
    let t = AlphabetTable::new(mk(&["ab", "cd"]), 2, 2).unwrap();
    assert_eq!(t.token_at(1).unwrap().as_str(), "cd");
    assert_eq!(t.token_at(2).unwrap_err(), CodecError::IndexOutOfRange);
    assert_eq!(t.index_of("cd"), Ok(1));
    assert_eq!(t.index_of("zz"), Err(CodecError::UnknownSymbol));
}

#[test]
fn checked_construction_validates_reverse_mapping() {
    let mk = |items: &[&str]| -> Vec<String> { items.iter().map(|s| s.to_string()).collect() };
    let good = vec![("cd".to_string(), 1u16), ("ab".to_string(), 0u16)];
    let t = AlphabetTable::new_checked(mk(&["ab", "cd"]), good, 2, 2).unwrap();
    assert_eq!(t.index_of("ab"), Ok(0));
    // A pair pointing at the wrong index.
    let wrong = vec![("cd".to_string(), 0u16), ("ab".to_string(), 1u16)];
    assert_eq!(
        AlphabetTable::new_checked(mk(&["ab", "cd"]), wrong, 2, 2).unwrap_err(),
        CodecError::MalformedTable
    );
    // An index covered twice.
    let dup = vec![("ab".to_string(), 0u16), ("ab".to_string(), 0u16)];
    assert_eq!(
        AlphabetTable::new_checked(mk(&["ab", "cd"]), dup, 2, 2).unwrap_err(),
        CodecError::MalformedTable
    );
    // An index out of range.
    let big = vec![("ab".to_string(), 0u16), ("cd".to_string(), 2u16)];
    assert_eq!(
        AlphabetTable::new_checked(mk(&["ab", "cd"]), big, 2, 2).unwrap_err(),
        CodecError::MalformedTable
    );
    // Too few pairs.
    let short = vec![("ab".to_string(), 0u16)];
    assert_eq!(
        AlphabetTable::new_checked(mk(&["ab", "cd"]), short, 2, 2).unwrap_err(),
        CodecError::MalformedTable
    );
}

#[test]
fn reader_reads_big_endian() {
    let data = [0b1011_0001u8, 0b0100_0000u8];
    let mut r = BitReader::new(&data);
    assert_eq!(r.read(4), Ok(0b1011));
    assert_eq!(r.read(4), Ok(0b0001));
    assert_eq!(r.bits_remaining(), 8);
    assert_eq!(r.read(16), Err(CodecError::EndOfStream));
    assert_eq!(r.read(8), Ok(0b0100_0000));
    assert_eq!(r.bits_remaining(), 0);
}

#[test]
fn writer_packs_big_endian() {
    let mut w = BitWriter::new();
    w.write(0b101, 3);
    w.write(0b11011, 5);
    assert_eq!(w.into_bytes(), vec![0b1011_1011u8]);
    let mut w2 = BitWriter::new();
    w2.write(0b1, 1);
    // A lone partial byte is dropped.
    assert_eq!(w2.into_bytes(), Vec::<u8>::new());
    let mut w3 = BitWriter::new();
    w3.write(0x5A5, 11);
    w3.write(0x2D, 6);
    // 17 bits: two complete bytes, one dropped padding bit.
    // 101_1010_0101 then 10_1101 -> 1011_0100 1011_0110 (1 dropped)
    assert_eq!(w3.into_bytes(), vec![0b1011_0100u8, 0b1011_0110u8]);
}
