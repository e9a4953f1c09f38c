//! The kinds of the micro-benchmarks that establish hardware baselines at H3 shapes.
use vstd::prelude::*;

verus! {

#[derive(Clone, Copy, Debug, PartialEq, Eq, Structural)]
pub enum GemmKind {
    Bf16,
    Fp8E4m3,
    Int8,
    Nvfp4,
    /// The mmh3 INT8 kernel with per-row and per-column scales and BF16 output.
    Int8Mmh3,
}

impl GemmKind {
    /// Every kind, in the order of their numbers.
    pub fn all() -> (kinds: [GemmKind; 5])
        ensures
            kinds@ == seq![
                GemmKind::Bf16,
                GemmKind::Fp8E4m3,
                GemmKind::Int8,
                GemmKind::Nvfp4,
                GemmKind::Int8Mmh3,
            ],
    {
        let kinds = [GemmKind::Bf16, GemmKind::Fp8E4m3, GemmKind::Int8, GemmKind::Nvfp4, GemmKind::Int8Mmh3];
        assert(kinds@ =~= seq![
            GemmKind::Bf16,
            GemmKind::Fp8E4m3,
            GemmKind::Int8,
            GemmKind::Nvfp4,
            GemmKind::Int8Mmh3,
        ]);
        kinds
    }

    pub open spec fn letters(self) -> Seq<char> {
        match self {
            GemmKind::Bf16 => "bf16"@,
            GemmKind::Fp8E4m3 => "fp8"@,
            GemmKind::Int8 => "int8"@,
            GemmKind::Nvfp4 => "nvfp4"@,
            GemmKind::Int8Mmh3 => "int8-mmh3"@,
        }
    }

    pub fn name(self) -> (name: &'static str)
        ensures
            name@ == self.letters(),
    {
        match self {
            GemmKind::Bf16 => "bf16",
            GemmKind::Fp8E4m3 => "fp8",
            GemmKind::Int8 => "int8",
            GemmKind::Nvfp4 => "nvfp4",
            GemmKind::Int8Mmh3 => "int8-mmh3",
        }
    }

    /// The kind of a name, if it is the name of one.
    pub fn from_name(name: &str) -> (kind: Option<GemmKind>)
        ensures
            match kind {
                Some(kind) => kind.letters() == name@,
                None => forall|kind: GemmKind| #[trigger] kind.letters() != name@,
            },
    {
        let wanted = String::from_str(name);
        if wanted == String::from_str("bf16") {
            Some(GemmKind::Bf16)
        } else if wanted == String::from_str("fp8") {
            Some(GemmKind::Fp8E4m3)
        } else if wanted == String::from_str("int8") {
            Some(GemmKind::Int8)
        } else if wanted == String::from_str("nvfp4") {
            Some(GemmKind::Nvfp4)
        } else if wanted == String::from_str("int8-mmh3") {
            Some(GemmKind::Int8Mmh3)
        } else {
            None
        }
    }

    /// Its number in cuBLASLt's benchmark, unless it is no kind of cuBLASLt's.
    pub fn cublaslt_code(self) -> (code: Option<i32>)
        ensures
            code == (match self {
                GemmKind::Bf16 => Some(0i32),
                GemmKind::Fp8E4m3 => Some(1i32),
                GemmKind::Int8 => Some(2i32),
                GemmKind::Nvfp4 => Some(3i32),
                GemmKind::Int8Mmh3 => None,
            }),
    {
        match self {
            GemmKind::Bf16 => Some(0),
            GemmKind::Fp8E4m3 => Some(1),
            GemmKind::Int8 => Some(2),
            GemmKind::Nvfp4 => Some(3),
            GemmKind::Int8Mmh3 => None,
        }
    }
}

/// No two kinds share a name, so that the name of a kind is read back as the kind.
pub proof fn names_tell_kinds_apart(one: GemmKind, other: GemmKind)
    requires
        one.letters() == other.letters(),
    ensures
        one == other,
{
    reveal_strlit("bf16");
    reveal_strlit("fp8");
    reveal_strlit("int8");
    reveal_strlit("nvfp4");
    reveal_strlit("int8-mmh3");
    let (a, b) = (one.letters(), other.letters());
    assert(a.len() == b.len());
    assert(a[0] == b[0]);
}

/// A tensor core instruction form, named by operand and accumulator types.
#[derive(Clone, Copy, Debug, PartialEq, Eq, Structural)]
pub enum MmaKind {
    Bf16AccumulateF32,
    F16AccumulateF16,
    Int8AccumulateS32,
    Fp8AccumulateF32,
    Fp8AccumulateF16,
}

impl MmaKind {
    /// Every form, in the order of their numbers.
    pub fn all() -> (kinds: [MmaKind; 5])
        ensures
            kinds@ == seq![
                MmaKind::Bf16AccumulateF32,
                MmaKind::F16AccumulateF16,
                MmaKind::Int8AccumulateS32,
                MmaKind::Fp8AccumulateF32,
                MmaKind::Fp8AccumulateF16,
            ],
    {
        let kinds = [
            MmaKind::Bf16AccumulateF32,
            MmaKind::F16AccumulateF16,
            MmaKind::Int8AccumulateS32,
            MmaKind::Fp8AccumulateF32,
            MmaKind::Fp8AccumulateF16,
        ];
        assert(kinds@ =~= seq![
            MmaKind::Bf16AccumulateF32,
            MmaKind::F16AccumulateF16,
            MmaKind::Int8AccumulateS32,
            MmaKind::Fp8AccumulateF32,
            MmaKind::Fp8AccumulateF16,
        ]);
        kinds
    }

    pub open spec fn letters(self) -> Seq<char> {
        match self {
            MmaKind::Bf16AccumulateF32 => "m16n8k16 bf16 → f32"@,
            MmaKind::F16AccumulateF16 => "m16n8k16 f16 → f16"@,
            MmaKind::Int8AccumulateS32 => "m16n8k32 s8 → s32"@,
            MmaKind::Fp8AccumulateF32 => "m16n8k32 e4m3 → f32"@,
            MmaKind::Fp8AccumulateF16 => "m16n8k32 e4m3 → f16"@,
        }
    }

    pub fn instruction(self) -> (name: &'static str)
        ensures
            name@ == self.letters(),
    {
        match self {
            MmaKind::Bf16AccumulateF32 => "m16n8k16 bf16 → f32",
            MmaKind::F16AccumulateF16 => "m16n8k16 f16 → f16",
            MmaKind::Int8AccumulateS32 => "m16n8k32 s8 → s32",
            MmaKind::Fp8AccumulateF32 => "m16n8k32 e4m3 → f32",
            MmaKind::Fp8AccumulateF16 => "m16n8k32 e4m3 → f16",
        }
    }

    /// Its number in the kernels' interface.
    pub fn code(self) -> (code: i32)
        ensures
            code == (match self {
                MmaKind::Bf16AccumulateF32 => 0i32,
                MmaKind::F16AccumulateF16 => 1i32,
                MmaKind::Int8AccumulateS32 => 2i32,
                MmaKind::Fp8AccumulateF32 => 3i32,
                MmaKind::Fp8AccumulateF16 => 4i32,
            }),
    {
        match self {
            MmaKind::Bf16AccumulateF32 => 0,
            MmaKind::F16AccumulateF16 => 1,
            MmaKind::Int8AccumulateS32 => 2,
            MmaKind::Fp8AccumulateF32 => 3,
            MmaKind::Fp8AccumulateF16 => 4,
        }
    }
}

} // verus!
