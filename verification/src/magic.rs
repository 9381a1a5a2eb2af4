use vstd::prelude::*;

verus! {

/// Byte order of an instruction encoding.
#[derive(Clone, Copy, PartialEq, Eq, Structural, Debug, Hash)]
pub enum Endian {
    Big,
    Little,
}

/// Instruction-set architecture that a signature votes for.
#[derive(Clone, Copy, PartialEq, Eq, Structural, Debug, Hash)]
pub enum Arch {
    PowerPc,
    Mips,
    Arm,
    X86,
}

/// An (architecture, endianness) pair: the unit of classification.
#[derive(Clone, Copy, PartialEq, Eq, Structural, Debug, Hash)]
pub struct Kind {
    pub endian: Endian,
    pub arch: Arch,
}

/// Tie-break position of an architecture: catalog declaration order.
pub open spec fn arch_rank_spec(a: Arch) -> int {
    match a {
        Arch::PowerPc => 0,
        Arch::Mips => 1,
        Arch::Arm => 2,
        Arch::X86 => 3,
    }
}

/// Tie-break position of a byte order: big-endian first.
pub open spec fn endian_rank_spec(e: Endian) -> int {
    match e {
        Endian::Big => 0,
        Endian::Little => 1,
    }
}

/// Tie-break position of a kind: architecture first, then endianness. Two
/// kinds share a rank only if they are the same kind, so the classifier's
/// tie-break is deterministic.
pub open spec fn kind_rank_spec(k: Kind) -> int {
    2 * arch_rank_spec(k.arch) + endian_rank_spec(k.endian)
}

/// Equal ranks mean equal kinds.
pub proof fn lemma_kind_rank_injective(k1: Kind, k2: Kind)
    ensures
        kind_rank_spec(k1) == kind_rank_spec(k2) ==> k1 == k2,
{
}

impl Kind {
    /// This kind's position in the fixed tie-break order.
    pub fn rank(&self) -> (r: usize)
        ensures
            r as int == kind_rank_spec(*self),
    {
        let a: usize = match self.arch {
            Arch::PowerPc => 0,
            Arch::Mips => 1,
            Arch::Arm => 2,
            Arch::X86 => 3,
        };
        let e: usize = match self.endian {
            Endian::Big => 0,
            Endian::Little => 1,
        };
        2 * a + e
    }
}

/// One signature heuristic: a fixed-length masked byte pattern voting for a
/// `Kind`. The pattern matches a window of `masks.len()` bytes when, at each
/// position `j`, `window[j] & masks[j] == values[j]`. An exact byte has mask
/// 0xff, a wildcard byte has mask 0x00, and a refinement on selected bits of
/// a byte has a partial mask (for example, mask 0xf0 and value 0xe0 asks for
/// a top nibble of 0xe).
pub struct Rule {
    pub kind: Kind,
    pub masks: Vec<u8>,
    pub values: Vec<u8>,
}

/// Mathematical model of a `Rule`.
#[verifier::ext_equal]
pub struct RuleModel {
    pub kind: Kind,
    pub masks: Seq<u8>,
    pub values: Seq<u8>,
}

impl View for Rule {
    type V = RuleModel;

    open spec fn view(&self) -> RuleModel {
        RuleModel { kind: self.kind, masks: self.masks@, values: self.values@ }
    }
}

impl RuleModel {
    /// The number of bytes a match of this rule spans.
    pub open spec fn len(self) -> int {
        self.masks.len() as int
    }

    /// A rule is well formed when its two byte tables line up and its
    /// pattern is short: at least one byte, at most `MAX_PATTERN_LEN`.
    pub open spec fn wf(self) -> bool {
        &&& self.masks.len() == self.values.len()
        &&& 1 <= self.masks.len() <= MAX_PATTERN_LEN
    }

    /// The rule matches `data` at position `p`: the whole pattern lies
    /// inside `data` and every masked byte agrees.
    pub open spec fn matches_at(self, data: Seq<u8>, p: int) -> bool {
        &&& 0 <= p
        &&& p + self.len() <= data.len()
        &&& forall|j: int|
            0 <= j < self.len() ==> (data[p + j] & self.masks[j]) == self.values[j]
    }
}

/// The longest pattern in the catalog; windows handed to neighbouring
/// scanning tasks overlap by this many bytes so that no match is lost at a
/// chunk boundary.
pub const MAX_PATTERN_LEN: usize = 12;

/// The signature catalog as a mathematical value: every contract about
/// scanning is stated against this sequence of rule models.
pub open spec fn catalog() -> Seq<RuleModel> {
    seq![
        // addui $sp, -XX; sw XX, XX($sp): 27 bd ff ??, af 1010xxxx ?? ??
        RuleModel {
            kind: Kind { endian: Endian::Big, arch: Arch::Mips },
            masks: seq![0xffu8, 0xff, 0xff, 0x00, 0xff, 0xe0, 0x00, 0x00],
            values: seq![0x27u8, 0xbd, 0xff, 0x00, 0xaf, 0xa0, 0x00, 0x00],
        },
        // the same two instructions with each word byte-reversed
        RuleModel {
            kind: Kind { endian: Endian::Little, arch: Arch::Mips },
            masks: seq![0x00u8, 0xff, 0xff, 0xff, 0x00, 0x00, 0xe0, 0xff],
            values: seq![0x00u8, 0xff, 0xbd, 0x27, 0x00, 0x00, 0xa0, 0xaf],
        },
        // jr $ra; addui $sp, XX
        RuleModel {
            kind: Kind { endian: Endian::Big, arch: Arch::Mips },
            masks: seq![0xffu8, 0xff, 0xff, 0xff, 0xff, 0xff, 0x00, 0x00],
            values: seq![0x03u8, 0xe0, 0x00, 0x08, 0x27, 0xbd, 0x00, 0x00],
        },
        RuleModel {
            kind: Kind { endian: Endian::Little, arch: Arch::Mips },
            masks: seq![0xffu8, 0xff, 0xff, 0xff, 0x00, 0x00, 0xff, 0xff],
            values: seq![0x08u8, 0x00, 0xe0, 0x03, 0x00, 0x00, 0xbd, 0x27],
        },
        // addui $sp, XX; jr $ra
        RuleModel {
            kind: Kind { endian: Endian::Big, arch: Arch::Mips },
            masks: seq![0xffu8, 0xff, 0x00, 0x00, 0xff, 0xff, 0xff, 0xff],
            values: seq![0x27u8, 0xbd, 0x00, 0x00, 0x03, 0xe0, 0x00, 0x08],
        },
        RuleModel {
            kind: Kind { endian: Endian::Little, arch: Arch::Mips },
            masks: seq![0x00u8, 0x00, 0xff, 0xff, 0xff, 0xff, 0xff, 0xff],
            values: seq![0x00u8, 0x00, 0xbd, 0x27, 0x08, 0x00, 0xe0, 0x03],
        },
        // mflr r0
        RuleModel {
            kind: Kind { endian: Endian::Big, arch: Arch::PowerPc },
            masks: seq![0xffu8, 0xff, 0xff, 0xff],
            values: seq![0x7cu8, 0x08, 0x02, 0xa6],
        },
        RuleModel {
            kind: Kind { endian: Endian::Little, arch: Arch::PowerPc },
            masks: seq![0xffu8, 0xff, 0xff, 0xff],
            values: seq![0xa6u8, 0x02, 0x08, 0x7c],
        },
        // blr
        RuleModel {
            kind: Kind { endian: Endian::Big, arch: Arch::PowerPc },
            masks: seq![0xffu8, 0xff, 0xff, 0xff],
            values: seq![0x4eu8, 0x80, 0x00, 0x20],
        },
        RuleModel {
            kind: Kind { endian: Endian::Little, arch: Arch::PowerPc },
            masks: seq![0xffu8, 0xff, 0xff, 0xff],
            values: seq![0x20u8, 0x00, 0x80, 0x4e],
        },
        // stmfd sp!, {..}, then two instructions whose op-codes begin with 0xe
        RuleModel {
            kind: Kind { endian: Endian::Big, arch: Arch::Arm },
            masks: seq![0xffu8, 0xff, 0x00, 0x00, 0xf0, 0x00, 0x00, 0x00, 0xf0, 0x00, 0x00, 0x00],
            values: seq![0xe9u8, 0x2d, 0x00, 0x00, 0xe0, 0x00, 0x00, 0x00, 0xe0, 0x00, 0x00, 0x00],
        },
        RuleModel {
            kind: Kind { endian: Endian::Little, arch: Arch::Arm },
            masks: seq![0x00u8, 0x00, 0xff, 0xff, 0x00, 0x00, 0x00, 0xf0, 0x00, 0x00, 0x00, 0xf0],
            values: seq![0x00u8, 0x00, 0xe9, 0x2d, 0x00, 0x00, 0x00, 0xe0, 0x00, 0x00, 0x00, 0xe0],
        },
        // mov r0, xx; ldmfd sp!, {..}
        RuleModel {
            kind: Kind { endian: Endian::Big, arch: Arch::Arm },
            masks: seq![0xffu8, 0xff, 0x00, 0x00, 0xff, 0xff, 0x00, 0x00],
            values: seq![0xe1u8, 0xa0, 0x00, 0x00, 0xe8, 0x8d, 0x00, 0x00],
        },
        RuleModel {
            kind: Kind { endian: Endian::Little, arch: Arch::Arm },
            masks: seq![0x00u8, 0x00, 0xff, 0xff, 0x00, 0x00, 0xff, 0xff],
            values: seq![0x00u8, 0x00, 0xa0, 0xe1, 0x00, 0x00, 0x8d, 0xe8],
        },
        // push ebp; mov ebp, esp; sub esp, xx
        RuleModel {
            kind: Kind { endian: Endian::Little, arch: Arch::X86 },
            masks: seq![0xffu8, 0xff, 0xff, 0xff, 0xff, 0x00],
            values: seq![0x55u8, 0x89, 0xe5, 0x83, 0xec, 0x00],
        },
        // push rbp; mov ebp, esp; push rdi; push rsi
        RuleModel {
            kind: Kind { endian: Endian::Little, arch: Arch::X86 },
            masks: seq![0xffu8, 0xff, 0xff, 0xff, 0xff, 0x00],
            values: seq![0x55u8, 0x89, 0xe5, 0x57, 0x56, 0x00],
        },
        // a run of eight nop instructions
        RuleModel {
            kind: Kind { endian: Endian::Little, arch: Arch::X86 },
            masks: seq![0xffu8, 0xff, 0xff, 0xff, 0xff, 0xff, 0xff, 0xff],
            values: seq![0x90u8, 0x90, 0x90, 0x90, 0x90, 0x90, 0x90, 0x90],
        },
        // endbr64
        RuleModel {
            kind: Kind { endian: Endian::Little, arch: Arch::X86 },
            masks: seq![0xffu8, 0xff, 0xff, 0xff],
            values: seq![0xf3u8, 0x0f, 0x1e, 0xfa],
        },
    ]
}

/// Every rule in the catalog is well formed.
pub proof fn lemma_catalog_wf()
    ensures
        forall|i: int| 0 <= i < catalog().len() ==> (#[trigger] catalog()[i]).wf(),
{
    assert forall|i: int| 0 <= i < catalog().len() implies (#[trigger] catalog()[i]).wf() by {
        if i == 0 { assert(catalog()[0].wf()); }
        else if i == 1 { assert(catalog()[1].wf()); }
        else if i == 2 { assert(catalog()[2].wf()); }
        else if i == 3 { assert(catalog()[3].wf()); }
        else if i == 4 { assert(catalog()[4].wf()); }
        else if i == 5 { assert(catalog()[5].wf()); }
        else if i == 6 { assert(catalog()[6].wf()); }
        else if i == 7 { assert(catalog()[7].wf()); }
        else if i == 8 { assert(catalog()[8].wf()); }
        else if i == 9 { assert(catalog()[9].wf()); }
        else if i == 10 { assert(catalog()[10].wf()); }
        else if i == 11 { assert(catalog()[11].wf()); }
        else if i == 12 { assert(catalog()[12].wf()); }
        else if i == 13 { assert(catalog()[13].wf()); }
        else if i == 14 { assert(catalog()[14].wf()); }
        else if i == 15 { assert(catalog()[15].wf()); }
        else if i == 16 { assert(catalog()[16].wf()); }
        else { assert(catalog()[17].wf()); }
    }
}

/// Builds the executable signature catalog; its models are exactly
/// `catalog()`, in order.
pub fn magics() -> (rules: Vec<Rule>)
    ensures
        rules@.len() == catalog().len(),
        forall|i: int| 0 <= i < rules@.len() ==> (#[trigger] rules@[i])@ =~= catalog()[i],
{
    let mut rules: Vec<Rule> = Vec::new();
    rules.push(Rule {
        kind: Kind { endian: Endian::Big, arch: Arch::Mips },
        masks: vec![0xffu8, 0xff, 0xff, 0x00, 0xff, 0xe0, 0x00, 0x00],
        values: vec![0x27u8, 0xbd, 0xff, 0x00, 0xaf, 0xa0, 0x00, 0x00],
    });
    rules.push(Rule {
        kind: Kind { endian: Endian::Little, arch: Arch::Mips },
        masks: vec![0x00u8, 0xff, 0xff, 0xff, 0x00, 0x00, 0xe0, 0xff],
        values: vec![0x00u8, 0xff, 0xbd, 0x27, 0x00, 0x00, 0xa0, 0xaf],
    });
    rules.push(Rule {
        kind: Kind { endian: Endian::Big, arch: Arch::Mips },
        masks: vec![0xffu8, 0xff, 0xff, 0xff, 0xff, 0xff, 0x00, 0x00],
        values: vec![0x03u8, 0xe0, 0x00, 0x08, 0x27, 0xbd, 0x00, 0x00],
    });
    rules.push(Rule {
        kind: Kind { endian: Endian::Little, arch: Arch::Mips },
        masks: vec![0xffu8, 0xff, 0xff, 0xff, 0x00, 0x00, 0xff, 0xff],
        values: vec![0x08u8, 0x00, 0xe0, 0x03, 0x00, 0x00, 0xbd, 0x27],
    });
    rules.push(Rule {
        kind: Kind { endian: Endian::Big, arch: Arch::Mips },
        masks: vec![0xffu8, 0xff, 0x00, 0x00, 0xff, 0xff, 0xff, 0xff],
        values: vec![0x27u8, 0xbd, 0x00, 0x00, 0x03, 0xe0, 0x00, 0x08],
    });
    rules.push(Rule {
        kind: Kind { endian: Endian::Little, arch: Arch::Mips },
        masks: vec![0x00u8, 0x00, 0xff, 0xff, 0xff, 0xff, 0xff, 0xff],
        values: vec![0x00u8, 0x00, 0xbd, 0x27, 0x08, 0x00, 0xe0, 0x03],
    });
    rules.push(Rule {
        kind: Kind { endian: Endian::Big, arch: Arch::PowerPc },
        masks: vec![0xffu8, 0xff, 0xff, 0xff],
        values: vec![0x7cu8, 0x08, 0x02, 0xa6],
    });
    rules.push(Rule {
        kind: Kind { endian: Endian::Little, arch: Arch::PowerPc },
        masks: vec![0xffu8, 0xff, 0xff, 0xff],
        values: vec![0xa6u8, 0x02, 0x08, 0x7c],
    });
    rules.push(Rule {
        kind: Kind { endian: Endian::Big, arch: Arch::PowerPc },
        masks: vec![0xffu8, 0xff, 0xff, 0xff],
        values: vec![0x4eu8, 0x80, 0x00, 0x20],
    });
    rules.push(Rule {
        kind: Kind { endian: Endian::Little, arch: Arch::PowerPc },
        masks: vec![0xffu8, 0xff, 0xff, 0xff],
        values: vec![0x20u8, 0x00, 0x80, 0x4e],
    });
    rules.push(Rule {
        kind: Kind { endian: Endian::Big, arch: Arch::Arm },
        masks: vec![0xffu8, 0xff, 0x00, 0x00, 0xf0, 0x00, 0x00, 0x00, 0xf0, 0x00, 0x00, 0x00],
        values: vec![0xe9u8, 0x2d, 0x00, 0x00, 0xe0, 0x00, 0x00, 0x00, 0xe0, 0x00, 0x00, 0x00],
    });
    rules.push(Rule {
        kind: Kind { endian: Endian::Little, arch: Arch::Arm },
        masks: vec![0x00u8, 0x00, 0xff, 0xff, 0x00, 0x00, 0x00, 0xf0, 0x00, 0x00, 0x00, 0xf0],
        values: vec![0x00u8, 0x00, 0xe9, 0x2d, 0x00, 0x00, 0x00, 0xe0, 0x00, 0x00, 0x00, 0xe0],
    });
    rules.push(Rule {
        kind: Kind { endian: Endian::Big, arch: Arch::Arm },
        masks: vec![0xffu8, 0xff, 0x00, 0x00, 0xff, 0xff, 0x00, 0x00],
        values: vec![0xe1u8, 0xa0, 0x00, 0x00, 0xe8, 0x8d, 0x00, 0x00],
    });
    rules.push(Rule {
        kind: Kind { endian: Endian::Little, arch: Arch::Arm },
        masks: vec![0x00u8, 0x00, 0xff, 0xff, 0x00, 0x00, 0xff, 0xff],
        values: vec![0x00u8, 0x00, 0xa0, 0xe1, 0x00, 0x00, 0x8d, 0xe8],
    });
    rules.push(Rule {
        kind: Kind { endian: Endian::Little, arch: Arch::X86 },
        masks: vec![0xffu8, 0xff, 0xff, 0xff, 0xff, 0x00],
        values: vec![0x55u8, 0x89, 0xe5, 0x83, 0xec, 0x00],
    });
    rules.push(Rule {
        kind: Kind { endian: Endian::Little, arch: Arch::X86 },
        masks: vec![0xffu8, 0xff, 0xff, 0xff, 0xff, 0x00],
        values: vec![0x55u8, 0x89, 0xe5, 0x57, 0x56, 0x00],
    });
    rules.push(Rule {
        kind: Kind { endian: Endian::Little, arch: Arch::X86 },
        masks: vec![0xffu8, 0xff, 0xff, 0xff, 0xff, 0xff, 0xff, 0xff],
        values: vec![0x90u8, 0x90, 0x90, 0x90, 0x90, 0x90, 0x90, 0x90],
    });
    rules.push(Rule {
        kind: Kind { endian: Endian::Little, arch: Arch::X86 },
        masks: vec![0xffu8, 0xff, 0xff, 0xff],
        values: vec![0xf3u8, 0x0f, 0x1e, 0xfa],
    });
    rules
}

/// The big-endian PowerPC `mflr r0` signature, exposed on its own: the
/// four-byte prologue idiom 7c 08 02 a6.
pub struct PowerPcBigEndianMflr;

impl PowerPcBigEndianMflr {
    /// The kind this signature votes for.
    pub fn kind(&self) -> (k: Kind)
        ensures
            k == (Kind { endian: Endian::Big, arch: Arch::PowerPc }),
    {
        Kind { endian: Endian::Big, arch: Arch::PowerPc }
    }

    /// The catalog rule that carries this signature.
    pub fn rule(&self) -> (r: Rule)
        ensures
            r@ =~= catalog()[6],
    {
        Rule {
            kind: Kind { endian: Endian::Big, arch: Arch::PowerPc },
            masks: vec![0xffu8, 0xff, 0xff, 0xff],
            values: vec![0x7cu8, 0x08, 0x02, 0xa6],
        }
    }
}

/// The little-endian PowerPC `mflr r0` signature: the same instruction
/// with its bytes reversed, a6 02 08 7c.
pub struct PowerPcLittleEndianMflr;

impl PowerPcLittleEndianMflr {
    /// The kind this signature votes for.
    pub fn kind(&self) -> (k: Kind)
        ensures
            k == (Kind { endian: Endian::Little, arch: Arch::PowerPc }),
    {
        Kind { endian: Endian::Little, arch: Arch::PowerPc }
    }

    /// The catalog rule that carries this signature.
    pub fn rule(&self) -> (r: Rule)
        ensures
            r@ =~= catalog()[7],
    {
        Rule {
            kind: Kind { endian: Endian::Little, arch: Arch::PowerPc },
            masks: vec![0xffu8, 0xff, 0xff, 0xff],
            values: vec![0xa6u8, 0x02, 0x08, 0x7c],
        }
    }
}

/// Decides whether `rule` matches `data` at position `p`, exactly as the
/// model predicate `matches_at` says.
pub fn rule_matches(rule: &Rule, data: &[u8], p: usize) -> (b: bool)
    requires
        rule@.wf(),
        p + rule@.len() <= data@.len(),
    ensures
        b == rule@.matches_at(data@, p as int),
{
    let n = rule.masks.len();
    let dlen = data.len();
    let mut j: usize = 0;
    while j < n
        invariant
            n == rule@.len(),
            rule@.wf(),
            dlen == data@.len(),
            p + n <= dlen,
            0 <= j <= n,
            forall|t: int|
                0 <= t < j ==> (data@[p + t] & rule@.masks[t]) == rule@.values[t],
        decreases n - j,
    {
        if (data[p + j] & rule.masks[j]) != rule.values[j] {
            return false;
        }
        j += 1;
    }
    true
}

} // verus!
