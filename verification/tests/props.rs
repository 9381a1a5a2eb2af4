use binarch::Arch;
use binarch::Binarch;
use binarch::Endian;
use binarch::Kind;
use binarch::Level;

fn all_kinds() -> Vec<Kind> {
    let mut v = Vec::new();
    for arch in [Arch::PowerPc, Arch::Mips, Arch::Arm, Arch::X86] {
        for endian in [Endian::Big, Endian::Little] {
            v.push(Kind { endian, arch });
        }
    }
    v
}

fn place(buf: &mut Vec<u8>, off: usize, bytes: &[u8]) {
    for (i, b) in bytes.iter().enumerate() {
        buf[off + i] = *b;
    }
}

/// Observational equality of two result mappings over a buffer of `upto` bytes.
fn same_results(a: &Binarch, b: &Binarch, upto: usize) {
    for k in all_kinds() {
        assert_eq!(a.count(k), b.count(k));
        for q in 0..upto {
            assert_eq!(a.contains(k, q), b.contains(k, q));
        }
    }
    assert_eq!(a.result(), b.result());
}

fn ppc_be_mflr_bytes() -> [u8; 4] {
    [0x7c, 0x08, 0x02, 0xa6]
}

fn x86_endbr64_bytes() -> [u8; 4] {
    [0xf3, 0x0f, 0x1e, 0xfa]
}

fn mips_be_jr_addui_bytes() -> [u8; 8] {
    [0x03, 0xe0, 0x00, 0x08, 0x27, 0xbd, 0x00, 0x00]
}

fn mips_le_jr_addui_bytes() -> [u8; 8] {
    [0x08, 0x00, 0xe0, 0x03, 0x00, 0x00, 0xbd, 0x27]
}

#[test]
fn merge_commutative_concrete() {
    let mut ab = vec![0u8; 64];
    place(&mut ab, 4, &ppc_be_mflr_bytes());
    place(&mut ab, 40, &x86_endbr64_bytes());
    let make_a = || Binarch::new(0, &ab[0..32]);
    let make_b = || Binarch::new(32, &ab[32..64]);
    let m1 = Binarch::reduce(make_a(), make_b());
    let m2 = Binarch::reduce(make_b(), make_a());
    same_results(&m1, &m2, 64);
    let k = Kind { endian: Endian::Big, arch: Arch::PowerPc };
    assert!(m1.contains(k, 4));
}

#[test]
fn merge_associative_concrete() {
    let mut buf = vec![0u8; 96];
    place(&mut buf, 4, &ppc_be_mflr_bytes());
    place(&mut buf, 40, &x86_endbr64_bytes());
    place(&mut buf, 70, &mips_be_jr_addui_bytes());
    let make_a = || Binarch::new(0, &buf[0..32]);
    let make_b = || Binarch::new(32, &buf[32..64]);
    let make_c = || Binarch::new(64, &buf[64..96]);
    let left = Binarch::reduce(Binarch::reduce(make_a(), make_b()), make_c());
    let right = Binarch::reduce(make_a(), Binarch::reduce(make_b(), make_c()));
    let swapped = Binarch::reduce(Binarch::reduce(make_a(), make_c()), make_b());
    same_results(&left, &right, 96);
    same_results(&left, &swapped, 96);
    assert_eq!(left.counts().len(), 3);
}

#[test]
fn merge_identity_concrete() {
    let mut buf = vec![0u8; 32];
    place(&mut buf, 10, &x86_endbr64_bytes());
    let folded = Binarch::reduce(Binarch::default(), Binarch::new(0, &buf));
    same_results(&folded, &Binarch::new(0, &buf), 32);
}

#[test]
fn parallelism_invariance() {
    let mut buf = vec![0u8; 1000];
    place(&mut buf, 0, &ppc_be_mflr_bytes());
    place(&mut buf, 333, &x86_endbr64_bytes());
    place(&mut buf, 500, &mips_be_jr_addui_bytes());
    place(&mut buf, 996, &x86_endbr64_bytes());
    let single = Binarch::scan(&buf, 1);
    for n in [2, 3, 7, 64, 4096] {
        let chunked = Binarch::scan(&buf, n);
        same_results(&single, &chunked, 1000);
    }
    let k = Kind { endian: Endian::Little, arch: Arch::X86 };
    assert_eq!(single.count(k), 2);
}

#[test]
fn no_boundary_loss() {
    // With 240 bytes in 10 chunks the chunk length is 24; a four-byte
    // pattern at offset 22 straddles the first chunk boundary.
    let mut buf = vec![0u8; 240];
    place(&mut buf, 22, &ppc_be_mflr_bytes());
    let k = Kind { endian: Endian::Big, arch: Arch::PowerPc };
    for n in [1, 2, 10, 240, 4096] {
        let b = Binarch::scan(&buf, n);
        assert_eq!(b.count(k), 1);
        assert!(b.contains(k, 22));
        assert_eq!(b.result(), Some(k));
    }
}

#[test]
fn deduplication_in_overlap() {
    // With chunk length 24 the first window spans bytes 0..36 and the
    // second 24..60: a pattern at offset 26 is seen whole by both.
    let mut buf = vec![0u8; 240];
    place(&mut buf, 26, &ppc_be_mflr_bytes());
    let b = Binarch::scan(&buf, 10);
    let k = Kind { endian: Endian::Big, arch: Arch::PowerPc };
    assert_eq!(b.count(k), 1);
    assert!(b.contains(k, 26));
}

#[test]
fn unknown_on_empty_buffer() {
    let empty: Vec<u8> = Vec::new();
    let b = Binarch::scan(&empty, 4096);
    assert_eq!(b.result(), None);
    assert_eq!(b.counts().len(), 0);
}

#[test]
fn unknown_on_all_zero_buffer() {
    let zeros = vec![0u8; 300];
    let b = Binarch::scan(&zeros, 4096);
    assert_eq!(b.result(), None);
    for k in all_kinds() {
        assert_eq!(b.count(k), 0);
    }
}

#[test]
fn end_to_end_powerpc_big() {
    // 200 zero bytes, the big-endian PowerPC mflr pattern five times at
    // distinct non-overlapping offsets, then 50 more zero bytes.
    let mut buf = vec![0u8; 200];
    for _ in 0..5 {
        buf.extend_from_slice(&ppc_be_mflr_bytes());
    }
    buf.extend_from_slice(&[0u8; 50]);
    let b = Binarch::scan(&buf, 4096);
    let k = Kind { endian: Endian::Big, arch: Arch::PowerPc };
    assert_eq!(b.count(k), 5);
    for off in [200, 204, 208, 212, 216] {
        assert!(b.contains(k, off));
    }
    assert_eq!(b.counts().len(), 1);
    assert_eq!(b.result(), Some(k));
}

#[test]
fn competing_evidence() {
    // Three MIPS big-endian signatures against seven x86 signatures: the
    // x86 kind must win on count.
    let mut buf = vec![0u8; 400];
    for i in 0..3 {
        place(&mut buf, 20 + 30 * i, &mips_be_jr_addui_bytes());
    }
    for i in 0..7 {
        place(&mut buf, 150 + 20 * i, &x86_endbr64_bytes());
    }
    let b = Binarch::scan(&buf, 4096);
    let mips = Kind { endian: Endian::Big, arch: Arch::Mips };
    let x86 = Kind { endian: Endian::Little, arch: Arch::X86 };
    assert_eq!(b.count(mips), 3);
    assert_eq!(b.count(x86), 7);
    assert_eq!(b.result(), Some(x86));
}

#[test]
fn tie_break_lowest_arch() {
    // One PowerPC big-endian match against one x86 match: equal counts,
    // and PowerPC comes first in the architecture order.
    let mut buf = vec![0u8; 100];
    place(&mut buf, 10, &x86_endbr64_bytes());
    place(&mut buf, 50, &ppc_be_mflr_bytes());
    let b = Binarch::scan(&buf, 4);
    assert_eq!(b.result(), Some(Kind { endian: Endian::Big, arch: Arch::PowerPc }));
}

#[test]
fn tie_break_big_endian_first() {
    // Equal counts for the two MIPS byte orders: big-endian wins the tie.
    let mut buf = vec![0u8; 100];
    place(&mut buf, 10, &mips_le_jr_addui_bytes());
    place(&mut buf, 60, &mips_be_jr_addui_bytes());
    let b = Binarch::scan(&buf, 4);
    assert_eq!(b.result(), Some(Kind { endian: Endian::Big, arch: Arch::Mips }));
}

#[test]
fn plan_windows_structure() {
    // 100 bytes in 4 chunks: chunk length 25, overlap 12, clipped ends.
    let ws = binarch::binarch::plan(100, 4);
    assert_eq!(ws, vec![(0, 37), (25, 62), (50, 87), (75, 100)]);
    // A tiny buffer pins the chunk length to the longest pattern.
    let small = binarch::binarch::plan(30, 4096);
    assert_eq!(small, vec![(0, 24), (12, 30), (24, 30)]);
    let none = binarch::binarch::plan(0, 7);
    assert_eq!(none.len(), 0);
}

#[test]
fn level_values_are_distinct() {
    assert_eq!(Level::Info, Level::Info);
    assert_ne!(Level::Off, Level::Trace);
    assert_ne!(Level::Debug, Level::Warn);
}
