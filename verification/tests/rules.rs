use binarch::Arch;
use binarch::Binarch;
use binarch::Endian;
use binarch::Kind;

/// Embeds one signature instance between runs of zero bytes and checks it
/// is found exactly once, at its offset, and classified as its kind.
fn expect_single(instance: &[u8], kind: Kind) {
    let mut buf = vec![0u8; 16];
    buf.extend_from_slice(instance);
    buf.extend_from_slice(&[0u8; 16]);
    let b = Binarch::scan(&buf, 3);
    assert_eq!(b.count(kind), 1);
    assert!(b.contains(kind, 16));
    assert_eq!(b.counts().len(), 1);
    assert_eq!(b.result(), Some(kind));
}

fn expect_nothing(instance: &[u8]) {
    let mut buf = vec![0u8; 16];
    buf.extend_from_slice(instance);
    buf.extend_from_slice(&[0u8; 16]);
    let b = Binarch::scan(&buf, 3);
    assert_eq!(b.result(), None);
    assert_eq!(b.counts().len(), 0);
}

fn mips_be() -> Kind {
    Kind { endian: Endian::Big, arch: Arch::Mips }
}

fn mips_le() -> Kind {
    Kind { endian: Endian::Little, arch: Arch::Mips }
}

fn ppc_be() -> Kind {
    Kind { endian: Endian::Big, arch: Arch::PowerPc }
}

fn ppc_le() -> Kind {
    Kind { endian: Endian::Little, arch: Arch::PowerPc }
}

fn arm_be() -> Kind {
    Kind { endian: Endian::Big, arch: Arch::Arm }
}

fn arm_le() -> Kind {
    Kind { endian: Endian::Little, arch: Arch::Arm }
}

fn x86_le() -> Kind {
    Kind { endian: Endian::Little, arch: Arch::X86 }
}

#[test]
fn mips_big_endian_addui_prologue() {
    // addui $sp, -XX then sw: wildcard bytes may hold anything, the store
    // byte must be 0xaf and the next byte's top bits 0xa0.
    expect_single(&[0x27, 0xbd, 0xff, 0x84, 0xaf, 0xb3, 0x12, 0x34], mips_be());
}

#[test]
fn mips_big_endian_addui_prologue_rejected() {
    // The refinement requires byte 4 to be 0xaf; 0x00 must be rejected.
    expect_nothing(&[0x27, 0xbd, 0xff, 0x84, 0x00, 0xb3, 0x12, 0x34]);
}

#[test]
fn mips_little_endian_addui_prologue() {
    expect_single(&[0x9c, 0xff, 0xbd, 0x27, 0x11, 0x22, 0xa7, 0xaf], mips_le());
}

#[test]
fn mips_little_endian_addui_prologue_rejected() {
    // Byte 6 must carry 0xa0 in its top bits; 0x07 must be rejected.
    expect_nothing(&[0x9c, 0xff, 0xbd, 0x27, 0x11, 0x22, 0x07, 0xaf]);
}

#[test]
fn mips_big_endian_jr_addui() {
    expect_single(&[0x03, 0xe0, 0x00, 0x08, 0x27, 0xbd, 0x56, 0x78], mips_be());
}

#[test]
fn mips_little_endian_jr_addui() {
    expect_single(&[0x08, 0x00, 0xe0, 0x03, 0x56, 0x78, 0xbd, 0x27], mips_le());
}

#[test]
fn mips_big_endian_addui_jr() {
    expect_single(&[0x27, 0xbd, 0x56, 0x78, 0x03, 0xe0, 0x00, 0x08], mips_be());
}

#[test]
fn mips_little_endian_addui_jr() {
    expect_single(&[0x56, 0x78, 0xbd, 0x27, 0x08, 0x00, 0xe0, 0x03], mips_le());
}

#[test]
fn powerpc_big_endian_mflr_prologue() {
    expect_single(&[0x7c, 0x08, 0x02, 0xa6], ppc_be());
}

#[test]
fn powerpc_little_endian_mflr_prologue() {
    expect_single(&[0xa6, 0x02, 0x08, 0x7c], ppc_le());
}

#[test]
fn powerpc_big_endian_blr_epilogue() {
    expect_single(&[0x4e, 0x80, 0x00, 0x20], ppc_be());
}

#[test]
fn powerpc_little_endian_blr_epilogue() {
    expect_single(&[0x20, 0x00, 0x80, 0x4e], ppc_le());
}

#[test]
fn arm_big_endian_stmfd_prologue() {
    // stmfd sp!, {..} then two instructions whose op-codes begin with 0xe.
    expect_single(
        &[0xe9, 0x2d, 0x41, 0x91, 0xe5, 0x12, 0x34, 0x56, 0xe1, 0x00, 0x00, 0x12],
        arm_be(),
    );
}

#[test]
fn arm_big_endian_stmfd_prologue_rejected() {
    // The instruction after the push must start with 0xe; 0x15 must not do.
    expect_nothing(&[0xe9, 0x2d, 0x41, 0x91, 0x15, 0x12, 0x34, 0x56, 0xe1, 0x00, 0x00, 0x12]);
}

#[test]
fn arm_little_endian_stmfd_prologue() {
    expect_single(
        &[0x11, 0x47, 0xe9, 0x2d, 0x13, 0x11, 0x22, 0xe8, 0x33, 0x44, 0x55, 0xef],
        arm_le(),
    );
}

#[test]
fn arm_big_endian_ldmfd_epilogue() {
    expect_single(&[0xe1, 0xa0, 0x13, 0x24, 0xe8, 0x8d, 0x35, 0x46], arm_be());
}

#[test]
fn arm_little_endian_ldmfd_epilogue() {
    expect_single(&[0x13, 0x24, 0xa0, 0xe1, 0x35, 0x46, 0x8d, 0xe8], arm_le());
}

#[test]
fn x86_push_ebp_mov_prologue() {
    expect_single(&[0x55, 0x89, 0xe5, 0x83, 0xec, 0x48], x86_le());
}

#[test]
fn x86_push_ebp_mov_prologue2() {
    expect_single(&[0x55, 0x89, 0xe5, 0x57, 0x56, 0x41], x86_le());
}

#[test]
fn x86_nop_slide() {
    expect_single(&[0x90; 8], x86_le());
}

#[test]
fn x86_nop_slide_longer_run() {
    // Every start of an eight-byte run counts: a sixteen-nop run has nine.
    let mut buf = vec![0u8; 16];
    buf.extend_from_slice(&[0x90; 16]);
    buf.extend_from_slice(&[0u8; 16]);
    let b = Binarch::scan(&buf, 2);
    assert_eq!(b.count(x86_le()), 9);
    for off in 16..25 {
        assert!(b.contains(x86_le(), off));
    }
}

#[test]
fn x86_endbr64() {
    expect_single(&[0xf3, 0x0f, 0x1e, 0xfa], x86_le());
}

#[test]
fn standalone_mflr_rules_expose_their_kinds() {
    let big = binarch::magic::PowerPcBigEndianMflr;
    let little = binarch::magic::PowerPcLittleEndianMflr;
    assert_eq!(big.kind(), ppc_be());
    assert_eq!(little.kind(), ppc_le());
    assert_eq!(big.rule().values, vec![0x7c, 0x08, 0x02, 0xa6]);
    assert_eq!(little.rule().values, vec![0xa6, 0x02, 0x08, 0x7c]);
}

#[test]
fn catalog_holds_every_rule_shape() {
    let rules = binarch::magic::magics();
    assert_eq!(rules.len(), 18);
    for rule in &rules {
        assert_eq!(rule.masks.len(), rule.values.len());
        assert!(rule.masks.len() >= 1);
        assert!(rule.masks.len() <= binarch::magic::MAX_PATTERN_LEN);
    }
}
