//! Pretty-printing of instructions.
use crate::inst::{
    BinaryAluOp, DoubleAluOp, IssueKind, MInst, MInstOf, MInstView, ResizeVariant, UnaryAluOp,
};
use crate::ir::{
    AbiParam, ArgumentExtension, ArgumentPurpose, ExternalName, IntCC, Signature, SignatureView, Type,
};
use crate::isa;
use crate::isa::{Alu2OutputVariant, Alu2Variant, AluVariant};
use crate::isatype::IsaType;
use crate::reg::{vregs_of, ArgPair, MachLabel, Reg, WritableReg};
use vstd::prelude::*;
use vstd::string::*;

verus! {

/// The text of a literal.
fn text(s: &str) -> (r: String)
    ensures
        r@ == s@,
{
    String::from_str(s)
}

/// A text behind a label.
fn labelled(label: &str, value: String) -> (r: String)
    ensures
        r@ == label@ + value@,
{
    let mut r = String::from_str(label);
    r.append(value.as_str());
    r
}

/// A decimal digit.
pub open spec fn digit(d: nat) -> Seq<char> {
    if d == 0 {
        "0"@
    } else if d == 1 {
        "1"@
    } else if d == 2 {
        "2"@
    } else if d == 3 {
        "3"@
    } else if d == 4 {
        "4"@
    } else if d == 5 {
        "5"@
    } else if d == 6 {
        "6"@
    } else if d == 7 {
        "7"@
    } else if d == 8 {
        "8"@
    } else {
        "9"@
    }
}

/// A number in decimal.
pub open spec fn decimal(n: nat) -> Seq<char>
    decreases n,
{
    if n < 10 {
        digit(n)
    } else {
        decimal(n / 10) + digit(n % 10)
    }
}

/// A number that may be negative in decimal.
pub open spec fn signed_decimal(n: int) -> Seq<char> {
    if n < 0 {
        "-"@ + decimal((-n) as nat)
    } else {
        decimal(n as nat)
    }
}

fn print_digit(d: u64) -> (r: String)
    ensures
        r@ == digit(d as nat),
{
    if d == 0 {
        text("0")
    } else if d == 1 {
        text("1")
    } else if d == 2 {
        text("2")
    } else if d == 3 {
        text("3")
    } else if d == 4 {
        text("4")
    } else if d == 5 {
        text("5")
    } else if d == 6 {
        text("6")
    } else if d == 7 {
        text("7")
    } else if d == 8 {
        text("8")
    } else {
        text("9")
    }
}

fn print_decimal(n: u64) -> (r: String)
    ensures
        r@ == decimal(n as nat),
    decreases n,
{
    if n < 10 {
        print_digit(n)
    } else {
        let mut r = print_decimal(n / 10);
        let last = print_digit(n % 10);
        r.append(last.as_str());
        r
    }
}

fn print_signed(n: i64) -> (r: String)
    ensures
        r@ == signed_decimal(n as int),
{
    if n < 0 {
        let m: u64 = (-(n + 1)) as u64 + 1;
        labelled("-", print_decimal(m))
    } else {
        print_decimal(n as u64)
    }
}

/// A truth value.
pub open spec fn bool_text(b: bool) -> Seq<char> {
    if b {
        "true"@
    } else {
        "false"@
    }
}

fn print_bool(b: bool) -> (r: String)
    ensures
        r@ == bool_text(b),
{
    if b {
        text("true")
    } else {
        text("false")
    }
}

/// The text of a register: its index.
pub open spec fn reg_text(r: Reg) -> Seq<char> {
    match r {
        Reg::Virtual(i) => "v("@ + decimal(i as nat) + ")"@,
        Reg::Real(e) => "p("@ + decimal(e as nat) + ")"@,
    }
}

/// The name of a register.
pub fn reg_name(reg: Reg) -> (r: String)
    ensures
        r@ == reg_text(reg),
{
    match reg {
        Reg::Virtual(i) => {
            let mut r = labelled("v(", print_decimal(i as u64));
            r.append(")");
            r
        },
        Reg::Real(e) => {
            let mut r = labelled("p(", print_decimal(e as u64));
            r.append(")");
            r
        },
    }
}

/// The name of a register that is written.
pub fn wreg_name(reg: WritableReg) -> (r: String)
    ensures
        r@ == reg_text(reg.reg),
{
    reg_name(reg.to_reg())
}

/// The name of the variant.
pub open spec fn alu_text(x: AluVariant) -> Seq<char> {
    match x {
        AluVariant::BitAnd => "BitAnd"@,
        AluVariant::BitOr => "BitOr"@,
        AluVariant::BitXor => "BitXor"@,
        AluVariant::Equal => "Equal"@,
        AluVariant::LessThan => "LessThan"@,
        AluVariant::GreaterThan => "GreaterThan"@,
    }
}

fn print_alu(x: AluVariant) -> (r: String)
    ensures
        r@ == alu_text(x),
{
    match x {
        AluVariant::BitAnd => text("BitAnd"),
        AluVariant::BitOr => text("BitOr"),
        AluVariant::BitXor => text("BitXor"),
        AluVariant::Equal => text("Equal"),
        AluVariant::LessThan => text("LessThan"),
        AluVariant::GreaterThan => text("GreaterThan"),
    }
}

/// The name of the variant.
pub open spec fn alu2_text(x: Alu2Variant) -> Seq<char> {
    match x {
        Alu2Variant::Add => "Add"@,
        Alu2Variant::Sub => "Sub"@,
        Alu2Variant::Multiply => "Multiply"@,
        Alu2Variant::Division => "Division"@,
        Alu2Variant::Shift => "Shift"@,
    }
}

fn print_alu2(x: Alu2Variant) -> (r: String)
    ensures
        r@ == alu2_text(x),
{
    match x {
        Alu2Variant::Add => text("Add"),
        Alu2Variant::Sub => text("Sub"),
        Alu2Variant::Multiply => text("Multiply"),
        Alu2Variant::Division => text("Division"),
        Alu2Variant::Shift => text("Shift"),
    }
}

/// The name of the variant.
pub open spec fn alu2out_text(x: Alu2OutputVariant) -> Seq<char> {
    match x {
        Alu2OutputVariant::LowOnly => "LowOnly"@,
        Alu2OutputVariant::HighOnly => "HighOnly"@,
        Alu2OutputVariant::LowFirst => "LowFirst"@,
        Alu2OutputVariant::NextLow => "NextLow"@,
        Alu2OutputVariant::NextHigh => "NextHigh"@,
    }
}

fn print_alu2out(x: Alu2OutputVariant) -> (r: String)
    ensures
        r@ == alu2out_text(x),
{
    match x {
        Alu2OutputVariant::LowOnly => text("LowOnly"),
        Alu2OutputVariant::HighOnly => text("HighOnly"),
        Alu2OutputVariant::LowFirst => text("LowFirst"),
        Alu2OutputVariant::NextLow => text("NextLow"),
        Alu2OutputVariant::NextHigh => text("NextHigh"),
    }
}

/// The name of the variant.
pub open spec fn resize_text(x: ResizeVariant) -> Seq<char> {
    match x {
        ResizeVariant::Uextend => "Uextend"@,
        ResizeVariant::Sextend => "Sextend"@,
        ResizeVariant::Reduce => "Reduce"@,
    }
}

fn print_resize(x: ResizeVariant) -> (r: String)
    ensures
        r@ == resize_text(x),
{
    match x {
        ResizeVariant::Uextend => text("Uextend"),
        ResizeVariant::Sextend => text("Sextend"),
        ResizeVariant::Reduce => text("Reduce"),
    }
}

/// The name of the variant.
pub open spec fn binary_text(x: BinaryAluOp) -> Seq<char> {
    match x {
        BinaryAluOp::IntAddWrap => "IntAddWrap"@,
        BinaryAluOp::IntSubWrap => "IntSubWrap"@,
        BinaryAluOp::IntMulWrap => "IntMulWrap"@,
        BinaryAluOp::BitAnd => "BitAnd"@,
        BinaryAluOp::BitOr => "BitOr"@,
        BinaryAluOp::BitXor => "BitXor"@,
    }
}

fn print_binary(x: BinaryAluOp) -> (r: String)
    ensures
        r@ == binary_text(x),
{
    match x {
        BinaryAluOp::IntAddWrap => text("IntAddWrap"),
        BinaryAluOp::IntSubWrap => text("IntSubWrap"),
        BinaryAluOp::IntMulWrap => text("IntMulWrap"),
        BinaryAluOp::BitAnd => text("BitAnd"),
        BinaryAluOp::BitOr => text("BitOr"),
        BinaryAluOp::BitXor => text("BitXor"),
    }
}

/// The name of the variant.
pub open spec fn double_text(x: DoubleAluOp) -> Seq<char> {
    match x {
        DoubleAluOp::SaddOverflow => "SaddOverflow"@,
        DoubleAluOp::UaddOverflow => "UaddOverflow"@,
        DoubleAluOp::SsubOverflow => "SsubOverflow"@,
        DoubleAluOp::UsubOverflow => "UsubOverflow"@,
        DoubleAluOp::SmulHi => "SmulHi"@,
        DoubleAluOp::UmulHi => "UmulHi"@,
        DoubleAluOp::SdivRem => "SdivRem"@,
        DoubleAluOp::UdivRem => "UdivRem"@,
        DoubleAluOp::Shl => "Shl"@,
        DoubleAluOp::Ushr => "Ushr"@,
        DoubleAluOp::Sshr => "Sshr"@,
    }
}

fn print_double(x: DoubleAluOp) -> (r: String)
    ensures
        r@ == double_text(x),
{
    match x {
        DoubleAluOp::SaddOverflow => text("SaddOverflow"),
        DoubleAluOp::UaddOverflow => text("UaddOverflow"),
        DoubleAluOp::SsubOverflow => text("SsubOverflow"),
        DoubleAluOp::UsubOverflow => text("UsubOverflow"),
        DoubleAluOp::SmulHi => text("SmulHi"),
        DoubleAluOp::UmulHi => text("UmulHi"),
        DoubleAluOp::SdivRem => text("SdivRem"),
        DoubleAluOp::UdivRem => text("UdivRem"),
        DoubleAluOp::Shl => text("Shl"),
        DoubleAluOp::Ushr => text("Ushr"),
        DoubleAluOp::Sshr => text("Sshr"),
    }
}

/// The name of the variant.
pub open spec fn unary_text(x: UnaryAluOp) -> Seq<char> {
    match x {
        UnaryAluOp::LogNeg => "LogNeg"@,
        UnaryAluOp::BitNeg => "BitNeg"@,
    }
}

fn print_unary(x: UnaryAluOp) -> (r: String)
    ensures
        r@ == unary_text(x),
{
    match x {
        UnaryAluOp::LogNeg => text("LogNeg"),
        UnaryAluOp::BitNeg => text("BitNeg"),
    }
}

/// The short name of the condition.
pub open spec fn intcc_text(x: IntCC) -> Seq<char> {
    match x {
        IntCC::Equal => "eq"@,
        IntCC::NotEqual => "ne"@,
        IntCC::SignedLessThan => "slt"@,
        IntCC::SignedGreaterThanOrEqual => "sge"@,
        IntCC::SignedGreaterThan => "sgt"@,
        IntCC::SignedLessThanOrEqual => "sle"@,
        IntCC::UnsignedLessThan => "ult"@,
        IntCC::UnsignedGreaterThanOrEqual => "uge"@,
        IntCC::UnsignedGreaterThan => "ugt"@,
        IntCC::UnsignedLessThanOrEqual => "ule"@,
    }
}

fn print_intcc(x: IntCC) -> (r: String)
    ensures
        r@ == intcc_text(x),
{
    match x {
        IntCC::Equal => text("eq"),
        IntCC::NotEqual => text("ne"),
        IntCC::SignedLessThan => text("slt"),
        IntCC::SignedGreaterThanOrEqual => text("sge"),
        IntCC::SignedGreaterThan => text("sgt"),
        IntCC::SignedLessThanOrEqual => text("sle"),
        IntCC::UnsignedLessThan => text("ult"),
        IntCC::UnsignedGreaterThanOrEqual => text("uge"),
        IntCC::UnsignedGreaterThan => text("ugt"),
        IntCC::UnsignedLessThanOrEqual => text("ule"),
    }
}

/// The text of a machine type.
pub open spec fn type_text(t: isa::Type) -> Seq<char> {
    match t {
        isa::Type::Uint(s) => "Uint("@ + decimal(s as nat) + ")"@,
        isa::Type::Int(s) => "Int("@ + decimal(s as nat) + ")"@,
    }
}

fn print_type(t: isa::Type) -> (r: String)
    ensures
        r@ == type_text(t),
{
    match t {
        isa::Type::Uint(s) => {
            let mut r = labelled("Uint(", print_decimal(s as u64));
            r.append(")");
            r
        },
        isa::Type::Int(s) => {
            let mut r = labelled("Int(", print_decimal(s as u64));
            r.append(")");
            r
        },
    }
}

/// The text of what is known of a type.
pub open spec fn isatype_text(t: IsaType) -> Seq<char> {
    match t {
        IsaType::Invalid => "Invalid"@,
        IsaType::Integer(s) => "Integer("@ + decimal(s as nat) + ")"@,
        IsaType::Known(t) => "Known("@ + type_text(t) + ")"@,
    }
}

fn print_isatype(t: IsaType) -> (r: String)
    ensures
        r@ == isatype_text(t),
{
    match t {
        IsaType::Invalid => text("Invalid"),
        IsaType::Integer(s) => {
            let mut r = labelled("Integer(", print_decimal(s as u64));
            r.append(")");
            r
        },
        IsaType::Known(t) => {
            let mut r = labelled("Known(", print_type(t));
            r.append(")");
            r
        },
    }
}

/// The text of a label.
pub open spec fn label_text(l: MachLabel) -> Seq<char> {
    "MachLabel("@ + decimal(l.index as nat) + ")"@
}

fn print_label(l: MachLabel) -> (r: String)
    ensures
        r@ == label_text(l),
{
    let mut r = labelled("MachLabel(", print_decimal(l.index as u64));
    r.append(")");
    r
}

/// The text of a symbol: its debug form.
pub open spec fn extname_text(n: ExternalName) -> Seq<char> {
    "ExternalName { namespace: "@ + decimal(n.namespace as nat) + ", index: "@ + decimal(
        n.index as nat,
    ) + " }"@
}

fn print_extname(n: ExternalName) -> (r: String)
    ensures
        r@ == extname_text(n),
{
    let mut r = labelled("ExternalName { namespace: ", print_decimal(n.namespace as u64));
    r.append(", index: ");
    let index = print_decimal(n.index as u64);
    r.append(index.as_str());
    r.append(" }");
    r
}

/// The text of a list of references, from the `k`th on.
pub open spec fn outs_from(outs: Seq<u16>, k: int) -> Seq<char>
    decreases outs.len() - k,
{
    if k >= outs.len() {
        Seq::empty()
    } else if k == 0 {
        decimal(outs[k] as nat) + outs_from(outs, k + 1)
    } else {
        ", "@ + decimal(outs[k] as nat) + outs_from(outs, k + 1)
    }
}

/// The text of a list of references.
pub open spec fn outs_text(outs: Seq<u16>) -> Seq<char> {
    "["@ + outs_from(outs, 0) + "]"@
}

fn print_outs(outs: &Vec<u16>) -> (r: String)
    ensures
        r@ == outs_text(outs@),
{
    let mut r = text("[");
    let ghost head = r@;
    for k in 0..outs.len()
        invariant
            head + outs_from(outs@, 0) == r@ + outs_from(outs@, k as int),
    {
        let ghost before = r@;
        if k > 0 {
            r.append(", ");
        }
        let n = print_decimal(outs[k] as u64);
        r.append(n.as_str());
        proof {
            let rest = outs_from(outs@, k as int + 1);
            if k == 0 {
                assert(before + (decimal(outs@[k as int] as nat) + rest) =~= r@ + rest);
            } else {
                assert(before + (", "@ + decimal(outs@[k as int] as nat) + rest) =~= r@ + rest);
            }
        }
    }
    assert(r@ + Seq::<char>::empty() =~= r@);
    r.append("]");
    r
}

/// The text of a value type.
pub open spec fn value_type_text(t: Type) -> Seq<char> {
    match t {
        Type::I8 => "I8"@,
        Type::I16 => "I16"@,
        Type::I32 => "I32"@,
        Type::I64 => "I64"@,
        Type::I128 => "I128"@,
        Type::F16 => "F16"@,
        Type::F32 => "F32"@,
        Type::F64 => "F64"@,
        Type::F128 => "F128"@,
    }
}

fn print_value_type(t: Type) -> (r: String)
    ensures
        r@ == value_type_text(t),
{
    match t {
        Type::I8 => text("I8"),
        Type::I16 => text("I16"),
        Type::I32 => text("I32"),
        Type::I64 => text("I64"),
        Type::I128 => text("I128"),
        Type::F16 => text("F16"),
        Type::F32 => text("F32"),
        Type::F64 => text("F64"),
        Type::F128 => text("F128"),
    }
}

/// The name of a purpose.
pub open spec fn purpose_text(p: ArgumentPurpose) -> Seq<char> {
    match p {
        ArgumentPurpose::Normal => "Normal"@,
        ArgumentPurpose::StructArgument => "StructArgument"@,
        ArgumentPurpose::StructReturn => "StructReturn"@,
        ArgumentPurpose::VMContext => "VMContext"@,
    }
}

fn print_purpose(p: ArgumentPurpose) -> (r: String)
    ensures
        r@ == purpose_text(p),
{
    match p {
        ArgumentPurpose::Normal => text("Normal"),
        ArgumentPurpose::StructArgument => text("StructArgument"),
        ArgumentPurpose::StructReturn => text("StructReturn"),
        ArgumentPurpose::VMContext => text("VMContext"),
    }
}

/// The name of an extension.
pub open spec fn extension_text(e: ArgumentExtension) -> Seq<char> {
    match e {
        ArgumentExtension::NoExt => "NoExt"@,
        ArgumentExtension::Uext => "Uext"@,
        ArgumentExtension::Sext => "Sext"@,
    }
}

fn print_extension(e: ArgumentExtension) -> (r: String)
    ensures
        r@ == extension_text(e),
{
    match e {
        ArgumentExtension::NoExt => text("NoExt"),
        ArgumentExtension::Uext => text("Uext"),
        ArgumentExtension::Sext => text("Sext"),
    }
}

/// The text of a parameter: its debug form.
pub open spec fn param_text(p: AbiParam) -> Seq<char> {
    "AbiParam { value_type: "@ + value_type_text(p.value_type) + ", purpose: "@ + purpose_text(
        p.purpose,
    ) + ", extension: "@ + extension_text(p.extension) + " }"@
}

fn print_param(p: &AbiParam) -> (r: String)
    ensures
        r@ == param_text(*p),
{
    let mut r = labelled("AbiParam { value_type: ", print_value_type(p.value_type));
    r.append(", purpose: ");
    let purpose = print_purpose(p.purpose);
    r.append(purpose.as_str());
    r.append(", extension: ");
    let extension = print_extension(p.extension);
    r.append(extension.as_str());
    r.append(" }");
    r
}

/// The text of parameters, from the `k`th on.
pub open spec fn params_from(ps: Seq<AbiParam>, k: int) -> Seq<char>
    decreases ps.len() - k,
{
    if k >= ps.len() {
        Seq::empty()
    } else if k == 0 {
        param_text(ps[k]) + params_from(ps, k + 1)
    } else {
        ", "@ + param_text(ps[k]) + params_from(ps, k + 1)
    }
}

fn append_params(r: &mut String, ps: &Vec<AbiParam>)
    ensures
        final(r)@ == old(r)@ + params_from(ps@, 0),
{
    let ghost head = r@;
    for k in 0..ps.len()
        invariant
            head == old(r)@,
            head + params_from(ps@, 0) == r@ + params_from(ps@, k as int),
    {
        let ghost before = r@;
        if k > 0 {
            r.append(", ");
        }
        let p = print_param(&ps[k]);
        r.append(p.as_str());
        proof {
            let rest = params_from(ps@, k as int + 1);
            if k == 0 {
                assert(before + (param_text(ps@[k as int]) + rest) =~= r@ + rest);
            } else {
                assert(before + (", "@ + param_text(ps@[k as int]) + rest) =~= r@ + rest);
            }
        }
    }
    assert(r@ + Seq::<char>::empty() =~= r@);
}

/// The text of a signature: its debug form.
pub open spec fn sig_text(sig: SignatureView) -> Seq<char> {
    "Signature { params: ["@ + params_from(sig.params, 0) + "], rets: ["@ + params_from(
        sig.rets,
        0,
    ) + "] }"@
}

fn print_sig(sig: &Signature) -> (r: String)
    ensures
        r@ == sig_text(sig@),
{
    let mut r = text("Signature { params: [");
    append_params(&mut r, &sig.params);
    r.append("], rets: [");
    append_params(&mut r, &sig.rets);
    r.append("] }");
    r
}

/// The text of the kind of an issue.
pub open spec fn kind_text(kind: IssueKind) -> Seq<char> {
    match kind {
        IssueKind::Jump => "Jump"@,
        IssueKind::Branch { dir, cond } => "Branch(dir: "@ + bool_text(dir) + ", cond: "@
            + reg_text(cond) + ")"@,
        IssueKind::Far { conditional, dir, cond, offset } => "Far(conditional: "@ + bool_text(
            conditional,
        ) + ", dir: "@ + bool_text(dir) + ", cond: "@ + reg_text(cond) + ", offset: "@ + reg_text(
            offset,
        ) + ")"@,
    }
}

fn print_kind(kind: IssueKind) -> (r: String)
    ensures
        r@ == kind_text(kind),
{
    match kind {
        IssueKind::Jump => text("Jump"),
        IssueKind::Branch { dir, cond } => {
            let mut r = labelled("Branch(dir: ", print_bool(dir));
            r.append(", cond: ");
            let c = reg_name(cond);
            r.append(c.as_str());
            r.append(")");
            r
        },
        IssueKind::Far { conditional, dir, cond, offset } => {
            let mut r = labelled("Far(conditional: ", print_bool(conditional));
            r.append(", dir: ");
            let d = print_bool(dir);
            r.append(d.as_str());
            r.append(", cond: ");
            let c = reg_name(cond);
            r.append(c.as_str());
            r.append(", offset: ");
            let o = reg_name(offset);
            r.append(o.as_str());
            r.append(")");
            r
        },
    }
}

fn print_issue(kind: IssueKind, dst: MachLabel, trig: u16) -> (r: String)
    ensures
        r@ == "kind: "@ + kind_text(kind) + ", dst: "@ + label_text(dst) + ", trig: "@ + decimal(
            trig as nat,
        ),
{
    let mut r = labelled("kind: ", print_kind(kind));
    r.append(", dst: ");
    let l = print_label(dst);
    r.append(l.as_str());
    r.append(", trig: ");
    let t = print_decimal(trig as u64);
    r.append(t.as_str());
    r
}

fn print_chain(dst: MachLabel, size_pow2: u16, gap: u16, trig: u16) -> (r: String)
    ensures
        r@ == "dst: "@ + label_text(dst) + ", size_pow2: "@ + decimal(size_pow2 as nat) + ", gap: "@
            + decimal(gap as nat) + ", trig: "@ + decimal(trig as nat),
{
    let mut r = labelled("dst: ", print_label(dst));
    r.append(", size_pow2: ");
    let s = print_decimal(size_pow2 as u64);
    r.append(s.as_str());
    r.append(", gap: ");
    let g = print_decimal(gap as u64);
    r.append(g.as_str());
    r.append(", trig: ");
    let t = print_decimal(trig as u64);
    r.append(t.as_str());
    r
}

fn print_alu2_pair(var: Alu2Variant, out_var: Alu2OutputVariant) -> (r: String)
    ensures
        r@ == "var: "@ + alu2_text(var) + ", var_out "@ + alu2out_text(out_var),
{
    let mut r = labelled("var: ", print_alu2(var));
    r.append(", var_out ");
    let o = print_alu2out(out_var);
    r.append(o.as_str());
    r
}

/// A list of strings as texts.
pub open spec fn texts(items: Seq<String>) -> Seq<Seq<char>> {
    Seq::new(items.len(), |i: int| items[i]@)
}

/// The texts of a list with one more string.
pub broadcast proof fn texts_push(s: Seq<String>, x: String)
    ensures
        #[trigger] texts(s.push(x)) == texts(s).push(x@),
{
    assert(texts(s.push(x)) =~= texts(s).push(x@));
}

/// Registers as texts.
pub open spec fn reg_texts(regs: Seq<Reg>) -> Seq<Seq<char>> {
    Seq::new(regs.len(), |i: int| reg_text(regs[i]))
}

/// The items from the `k`th on, each followed by a comma.
pub open spec fn items_from(items: Seq<Seq<char>>, k: int) -> Seq<char>
    decreases items.len() - k,
{
    if k >= items.len() {
        Seq::empty()
    } else {
        items[k] + ", "@ + items_from(items, k + 1)
    }
}

/// A name with its items in brackets.
pub open spec fn joined(name: Seq<char>, items: Seq<Seq<char>>) -> Seq<char> {
    name + "("@ + items_from(items, 0) + ")"@
}

fn join(name: &str, items: &Vec<String>) -> (r: String)
    ensures
        r@ == joined(name@, texts(items@)),
{
    let mut r = String::from_str(name);
    r.append("(");
    let ghost head = r@;
    let ghost all = texts(items@);
    for k in 0..items.len()
        invariant
            all == texts(items@),
            head + items_from(all, 0) == r@ + items_from(all, k as int),
    {
        let ghost before = r@;
        assert(all[k as int] == items@[k as int]@);
        r.append(items[k].as_str());
        r.append(", ");
        let ghost rest = items_from(all, k as int + 1);
        assert(before + (all[k as int] + ", "@ + rest) =~= r@ + rest);
    }
    assert(r@ + Seq::<char>::empty() =~= r@);
    r.append(")");
    r
}

fn push_regs(items: &mut Vec<String>, regs: &Vec<Reg>)
    ensures
        texts(final(items)@) == texts(old(items)@) + reg_texts(regs@),
{
    let ghost before = texts(items@);
    for i in 0..regs.len()
        invariant
            before == texts(old(items)@),
            texts(items@) == before + reg_texts(regs@).take(i as int),
    {
        let ghost now = texts(items@);
        let s = reg_name(regs[i]);
        let ghost sv = s@;
        items.push(s);
        assert(texts(items@) =~= now.push(sv));
        assert(texts(items@) =~= before + reg_texts(regs@).take(i as int + 1));
    }
    assert(reg_texts(regs@).take(regs@.len() as int) =~= reg_texts(regs@));
}

fn push_pairs(items: &mut Vec<String>, pairs: &Vec<ArgPair>)
    ensures
        texts(final(items)@) == texts(old(items)@) + reg_texts(vregs_of(pairs@)),
{
    let regs = crate::reg::pair_vregs(pairs);
    push_regs(items, &regs);
}

/// The name of an instruction.
pub open spec fn inst_name(inst: MInstView) -> Seq<char> {
    match inst {
        MInstOf::Nop => "Nop"@,
        MInstOf::Trap => "Trap"@,
        MInstOf::Args { .. } => "Args"@,
        MInstOf::Discard { .. } => "Discard"@,
        MInstOf::TrapNz { .. } => "TrapNz"@,
        MInstOf::Ret { .. } => "Ret"@,
        MInstOf::Rets { .. } => "Rets"@,
        MInstOf::Alu1 { .. } => "Alu1"@,
        MInstOf::Alu2 { .. } => "Alu2"@,
        MInstOf::Const { .. } => "Const"@,
        MInstOf::LoadExtName { .. } => "LoadExtName"@,
        MInstOf::Echo { .. } => "Echo"@,
        MInstOf::EchoChain { .. } => "EchoChain"@,
        MInstOf::EchoSplit { .. } => "EchoSplit"@,
        MInstOf::EchoLong { .. } => "EchoLong"@,
        MInstOf::Duplicate { .. } => "Duplicate"@,
        MInstOf::Reorder { .. } => "Reorder"@,
        MInstOf::Store { .. } => "Store"@,
        MInstOf::StoreStack { .. } => "StoreStack"@,
        MInstOf::StoreStackArg { .. } => "StoreStackArg"@,
        MInstOf::LoadStack { .. } => "LoadStack"@,
        MInstOf::SAddr { .. } => "SAddr"@,
        MInstOf::StackAdjust { .. } => "StackAdjust"@,
        MInstOf::Load { .. } => "Load"@,
        MInstOf::Cast { .. } => "Cast"@,
        MInstOf::Resize { .. } => "Resize"@,
        MInstOf::BinaryAlu { .. } => "BinaryAlu"@,
        MInstOf::DoubleAlu { .. } => "DoubleAlu"@,
        MInstOf::Pick { .. } => "Pick"@,
        MInstOf::UnaryAlu { .. } => "UnaryAlu"@,
        MInstOf::IntCmp { .. } => "IntCmp"@,
        MInstOf::Call { .. } => "Call"@,
        MInstOf::CallArgs { .. } => "CallArgs"@,
        MInstOf::JumpIssue { .. } => "JumpIssue"@,
        MInstOf::JumpOffset { .. } => "JumpOffset"@,
        MInstOf::JumpTrigger { .. } => "JumpTrigger"@,
        MInstOf::ImmJump { .. } => "ImmJump"@,
    }
}

/// The operands of an instruction as text.
pub open spec fn item_texts(inst: MInstView) -> Seq<Seq<char>> {
    match inst {
        MInstOf::Nop | MInstOf::Trap => Seq::empty(),
        MInstOf::Args { args } => reg_texts(vregs_of(args)),
        MInstOf::Discard { rss } => seq!["rss:"@] + reg_texts(rss),
        MInstOf::TrapNz { cond } => seq!["cond:"@, reg_text(cond)],
        MInstOf::Ret { trig } => seq!["trig: "@ + decimal(trig as nat)],
        MInstOf::Rets { rets } => reg_texts(vregs_of(rets)),
        MInstOf::Alu1 { var, rd, rss, out } => seq!["var: "@ + alu_text(var), "rd: "@, reg_text(rd), "rss:"@] + reg_texts(rss) + seq!["out: "@ + decimal(out as nat)],
        MInstOf::Alu2 { var, out_var, rds, rss, outs } => seq!["var: "@ + alu2_text(var) + ", var_out "@ + alu2out_text(out_var), "rds:"@] + reg_texts(rds) + seq!["rss:"@] + reg_texts(rss) + seq!["outs: "@ + outs_text(outs)],
        MInstOf::Const { ty, rd, imm } => seq!["ty: "@ + isatype_text(ty), "rd:"@, reg_text(rd), "imm: "@ + signed_decimal(imm as int)],
        MInstOf::LoadExtName { rd, name, offset } => seq!["rd:"@, reg_text(rd), "name: "@ + extname_text(name), "offset: "@ + signed_decimal(offset as int)],
        MInstOf::Echo { rds, rss } => seq!["rds:"@] + reg_texts(rds) + seq!["rss:"@] + reg_texts(rss),
        MInstOf::EchoChain { rd1, rd2, rs1, rs2, out1, out2, rd_chain, rs_chain } => seq!["rd1:"@, reg_text(rd1), "rd2:"@, reg_text(rd2), "rs1:"@, reg_text(rs1), "rs2:"@, reg_text(rs2), "out1: "@ + decimal(out1 as nat), "out2: "@ + decimal(out2 as nat), "rd_chain:"@] + reg_texts(rd_chain) + seq!["rs_chain:"@] + reg_texts(rs_chain),
        MInstOf::EchoSplit { rd1, rd2, rs1, rs2, out1, out2 } => seq!["rd1:"@, reg_text(rd1), "rd2:"@, reg_text(rd2), "rs1:"@, reg_text(rs1), "rs2:"@, reg_text(rs2), "out1: "@ + decimal(out1 as nat), "out2: "@ + decimal(out2 as nat)],
        MInstOf::EchoLong { rds, rss, out } => seq!["rds:"@] + reg_texts(rds) + seq!["rss:"@] + reg_texts(rss) + seq!["out: "@ + decimal(out as nat)],
        MInstOf::Duplicate { rd1, rd2, rs, out1, out2 } => seq!["rd1:"@, reg_text(rd1), "rd2:"@, reg_text(rd2), "rs:"@, reg_text(rs), "out1: "@ + decimal(out1 as nat), "out2: "@ + decimal(out2 as nat)],
        MInstOf::Reorder { rd1, rd2, rs1, rs2, out } => seq!["rd1:"@, reg_text(rd1), "rd2:"@, reg_text(rd2), "rs1:"@, reg_text(rs1), "rs2:"@, reg_text(rs2), "out: "@ + decimal(out as nat)],
        MInstOf::Store { rd, rs } => seq!["rs:"@, reg_text(rs), "rd:"@, reg_text(rd)],
        MInstOf::StoreStack { rs, idx } => seq!["rs:"@, reg_text(rs), "idx: "@ + decimal(idx as nat)],
        MInstOf::StoreStackArg { rs, offset, scale_pow2 } => seq!["rs:"@, reg_text(rs), "offset: "@ + decimal(offset as nat), "scale_pow2: "@ + decimal(scale_pow2 as nat)],
        MInstOf::LoadStack { ty, rd, idx } => seq!["ty: "@ + isatype_text(ty), "rd:"@, reg_text(rd), "idx: "@ + decimal(idx as nat)],
        MInstOf::SAddr { rd, scale_pow2, idx } => seq!["rd:"@, reg_text(rd), "scale_pow2: "@ + decimal(scale_pow2 as nat), "idx: "@ + decimal(idx as nat)],
        MInstOf::StackAdjust { reserve, private, amount_pow2 } => seq!["reserve: "@ + bool_text(reserve), "private: "@ + bool_text(private), "amount_pow2: "@ + decimal(amount_pow2 as nat)],
        MInstOf::Load { ty, rd, rs, out } => seq!["ty: "@ + isatype_text(ty), "rd:"@, reg_text(rd), "rs:"@, reg_text(rs), "out: "@ + decimal(out as nat)],
        MInstOf::Cast { rd, ty, rs, out } => seq!["rd:"@, reg_text(rd), "ty: "@ + isatype_text(ty), "rs:"@, reg_text(rs), "out: "@ + decimal(out as nat)],
        MInstOf::Resize { var, rd, rs } => seq!["var: "@ + resize_text(var), "rd:"@, reg_text(rd), "rs:"@, reg_text(rs)],
        MInstOf::BinaryAlu { op, rd, rs1, rs2 } => seq!["op: "@ + binary_text(op), "rd:"@, reg_text(rd), "rs1:"@, reg_text(rs1), "rs2:"@, reg_text(rs2)],
        MInstOf::DoubleAlu { op, rdl, rdh, rs1, rs2 } => seq!["op: "@ + double_text(op), "rdl:"@, reg_text(rdl), "rdh:"@, reg_text(rdh), "rs1:"@, reg_text(rs1), "rs2:"@, reg_text(rs2)],
        MInstOf::Pick { rd, cond, if_zero, if_nonzero, out } => seq!["rd:"@, reg_text(rd), "cond:"@, reg_text(cond), "if_zero:"@, reg_text(if_zero), "if_nonzero:"@, reg_text(if_nonzero), "out: "@ + decimal(out as nat)],
        MInstOf::UnaryAlu { op, rd, rs, .. } => seq!["op: "@ + unary_text(op), "rd:"@, reg_text(rd), "rs:"@, reg_text(rs)],
        MInstOf::IntCmp { cc, rd, rs1, rs2 } => seq!["cc: "@ + intcc_text(cc), "rd:"@, reg_text(rd), "rs1:"@, reg_text(rs1), "rs2:"@, reg_text(rs2)],
        MInstOf::Call { link, fun, trig } => seq!["link:"@, reg_text(link), "fn_ptr:"@, reg_text(fun), "trig: "@ + decimal(trig as nat)],
        MInstOf::CallArgs { link, rets, args, sig } => seq!["link:"@, reg_text(link), "rets:"@] + reg_texts(vregs_of(rets)) + seq!["args:"@] + reg_texts(vregs_of(args)) + seq!["sig: "@ + sig_text(sig)],
        MInstOf::JumpIssue { link, dst, kind, trig } => seq!["link:"@, reg_text(link), "kind: "@ + kind_text(kind) + ", dst: "@ + label_text(dst) + ", trig: "@ + decimal(trig as nat)],
        MInstOf::JumpOffset { rd, dst, size_pow2, gap, trig } => seq!["rd:"@, reg_text(rd), "dst: "@ + label_text(dst) + ", size_pow2: "@ + decimal(size_pow2 as nat) + ", gap: "@ + decimal(gap as nat) + ", trig: "@ + decimal(trig as nat)],
        MInstOf::JumpTrigger { link, args } => seq!["link:"@, reg_text(link), "args:"@] + reg_texts(args),
        MInstOf::ImmJump { dst } => seq!["dst: "@ + label_text(dst)],
    }
}

/// The text of an instruction.
pub open spec fn inst_text(inst: MInstView) -> Seq<char> {
    if inst is Nop || inst is Trap {
        inst_name(inst)
    } else {
        joined(inst_name(inst), item_texts(inst))
    }
}

impl MInst {
    /// Prints the instruction.
    #[verifier::spinoff_prover]
    #[verifier::rlimit(100)]
    pub fn print_with_state(&self) -> (r: String)
        ensures
            r@ == inst_text(self@),
    {
        broadcast use texts_push;

        match self {
            MInst::Nop => text("Nop"),
            MInst::Trap => text("Trap"),
            MInst::Args { args } => {
                let mut items: Vec<String> = Vec::new();
                push_pairs(&mut items, args);
                assert(texts(items@) =~= item_texts(self@));
                join("Args", &items)
            },
            MInst::Discard { rss } => {
                let mut items: Vec<String> = Vec::new();
                items.push(text("rss:"));
                push_regs(&mut items, rss);
                assert(texts(items@) =~= item_texts(self@));
                join("Discard", &items)
            },
            MInst::TrapNz { cond } => {
                let mut items: Vec<String> = Vec::new();
                items.push(text("cond:"));
                items.push(reg_name(*cond));
                assert(texts(items@) =~= item_texts(self@));
                join("TrapNz", &items)
            },
            MInst::Ret { trig } => {
                let mut items: Vec<String> = Vec::new();
                items.push(labelled("trig: ", print_decimal(*trig as u64)));
                assert(texts(items@) =~= item_texts(self@));
                join("Ret", &items)
            },
            MInst::Rets { rets } => {
                let mut items: Vec<String> = Vec::new();
                push_pairs(&mut items, rets);
                assert(texts(items@) =~= item_texts(self@));
                join("Rets", &items)
            },
            MInst::Alu1 { var, rd, rss, out } => {
                let mut items: Vec<String> = Vec::new();
                items.push(labelled("var: ", print_alu(*var)));
                items.push(text("rd: "));
                items.push(reg_name(*rd));
                items.push(text("rss:"));
                push_regs(&mut items, rss);
                items.push(labelled("out: ", print_decimal(*out as u64)));
                assert(texts(items@) =~= item_texts(self@));
                join("Alu1", &items)
            },
            MInst::Alu2 { var, out_var, rds, rss, outs } => {
                let mut items: Vec<String> = Vec::new();
                items.push(print_alu2_pair(*var, *out_var));
                items.push(text("rds:"));
                push_regs(&mut items, rds);
                items.push(text("rss:"));
                push_regs(&mut items, rss);
                items.push(labelled("outs: ", print_outs(outs)));
                assert(texts(items@) =~= item_texts(self@));
                join("Alu2", &items)
            },
            MInst::Const { ty, rd, imm } => {
                let mut items: Vec<String> = Vec::new();
                items.push(labelled("ty: ", print_isatype(*ty)));
                items.push(text("rd:"));
                items.push(reg_name(*rd));
                items.push(labelled("imm: ", print_signed(*imm)));
                assert(texts(items@) =~= item_texts(self@));
                join("Const", &items)
            },
            MInst::LoadExtName { rd, name, offset } => {
                let mut items: Vec<String> = Vec::new();
                items.push(text("rd:"));
                items.push(reg_name(*rd));
                items.push(labelled("name: ", print_extname(*name)));
                items.push(labelled("offset: ", print_signed(*offset)));
                assert(texts(items@) =~= item_texts(self@));
                join("LoadExtName", &items)
            },
            MInst::Echo { rds, rss } => {
                let mut items: Vec<String> = Vec::new();
                items.push(text("rds:"));
                push_regs(&mut items, rds);
                items.push(text("rss:"));
                push_regs(&mut items, rss);
                assert(texts(items@) =~= item_texts(self@));
                join("Echo", &items)
            },
            MInst::EchoChain { rd1, rd2, rs1, rs2, out1, out2, rd_chain, rs_chain } => {
                let mut items: Vec<String> = Vec::new();
                items.push(text("rd1:"));
                items.push(reg_name(*rd1));
                items.push(text("rd2:"));
                items.push(reg_name(*rd2));
                items.push(text("rs1:"));
                items.push(reg_name(*rs1));
                items.push(text("rs2:"));
                items.push(reg_name(*rs2));
                items.push(labelled("out1: ", print_decimal(*out1 as u64)));
                items.push(labelled("out2: ", print_decimal(*out2 as u64)));
                items.push(text("rd_chain:"));
                push_regs(&mut items, rd_chain);
                items.push(text("rs_chain:"));
                push_regs(&mut items, rs_chain);
                assert(texts(items@) =~= item_texts(self@));
                join("EchoChain", &items)
            },
            MInst::EchoSplit { rd1, rd2, rs1, rs2, out1, out2 } => {
                let mut items: Vec<String> = Vec::new();
                items.push(text("rd1:"));
                items.push(reg_name(*rd1));
                items.push(text("rd2:"));
                items.push(reg_name(*rd2));
                items.push(text("rs1:"));
                items.push(reg_name(*rs1));
                items.push(text("rs2:"));
                items.push(reg_name(*rs2));
                items.push(labelled("out1: ", print_decimal(*out1 as u64)));
                items.push(labelled("out2: ", print_decimal(*out2 as u64)));
                assert(texts(items@) =~= item_texts(self@));
                join("EchoSplit", &items)
            },
            MInst::EchoLong { rds, rss, out } => {
                let mut items: Vec<String> = Vec::new();
                items.push(text("rds:"));
                push_regs(&mut items, rds);
                items.push(text("rss:"));
                push_regs(&mut items, rss);
                items.push(labelled("out: ", print_decimal(*out as u64)));
                assert(texts(items@) =~= item_texts(self@));
                join("EchoLong", &items)
            },
            MInst::Duplicate { rd1, rd2, rs, out1, out2 } => {
                let mut items: Vec<String> = Vec::new();
                items.push(text("rd1:"));
                items.push(reg_name(*rd1));
                items.push(text("rd2:"));
                items.push(reg_name(*rd2));
                items.push(text("rs:"));
                items.push(reg_name(*rs));
                items.push(labelled("out1: ", print_decimal(*out1 as u64)));
                items.push(labelled("out2: ", print_decimal(*out2 as u64)));
                assert(texts(items@) =~= item_texts(self@));
                join("Duplicate", &items)
            },
            MInst::Reorder { rd1, rd2, rs1, rs2, out } => {
                let mut items: Vec<String> = Vec::new();
                items.push(text("rd1:"));
                items.push(reg_name(*rd1));
                items.push(text("rd2:"));
                items.push(reg_name(*rd2));
                items.push(text("rs1:"));
                items.push(reg_name(*rs1));
                items.push(text("rs2:"));
                items.push(reg_name(*rs2));
                items.push(labelled("out: ", print_decimal(*out as u64)));
                assert(texts(items@) =~= item_texts(self@));
                join("Reorder", &items)
            },
            MInst::Store { rd, rs } => {
                let mut items: Vec<String> = Vec::new();
                items.push(text("rs:"));
                items.push(reg_name(*rs));
                items.push(text("rd:"));
                items.push(reg_name(*rd));
                assert(texts(items@) =~= item_texts(self@));
                join("Store", &items)
            },
            MInst::StoreStack { rs, idx } => {
                let mut items: Vec<String> = Vec::new();
                items.push(text("rs:"));
                items.push(reg_name(*rs));
                items.push(labelled("idx: ", print_decimal(*idx as u64)));
                assert(texts(items@) =~= item_texts(self@));
                join("StoreStack", &items)
            },
            MInst::StoreStackArg { rs, offset, scale_pow2 } => {
                let mut items: Vec<String> = Vec::new();
                items.push(text("rs:"));
                items.push(reg_name(*rs));
                items.push(labelled("offset: ", print_decimal(*offset as u64)));
                items.push(labelled("scale_pow2: ", print_decimal(*scale_pow2 as u64)));
                assert(texts(items@) =~= item_texts(self@));
                join("StoreStackArg", &items)
            },
            MInst::LoadStack { ty, rd, idx } => {
                let mut items: Vec<String> = Vec::new();
                items.push(labelled("ty: ", print_isatype(*ty)));
                items.push(text("rd:"));
                items.push(reg_name(*rd));
                items.push(labelled("idx: ", print_decimal(*idx as u64)));
                assert(texts(items@) =~= item_texts(self@));
                join("LoadStack", &items)
            },
            MInst::SAddr { rd, scale_pow2, idx } => {
                let mut items: Vec<String> = Vec::new();
                items.push(text("rd:"));
                items.push(reg_name(*rd));
                items.push(labelled("scale_pow2: ", print_decimal(*scale_pow2 as u64)));
                items.push(labelled("idx: ", print_decimal(*idx as u64)));
                assert(texts(items@) =~= item_texts(self@));
                join("SAddr", &items)
            },
            MInst::StackAdjust { reserve, private, amount_pow2 } => {
                let mut items: Vec<String> = Vec::new();
                items.push(labelled("reserve: ", print_bool(*reserve)));
                items.push(labelled("private: ", print_bool(*private)));
                items.push(labelled("amount_pow2: ", print_decimal(*amount_pow2 as u64)));
                assert(texts(items@) =~= item_texts(self@));
                join("StackAdjust", &items)
            },
            MInst::Load { ty, rd, rs, out } => {
                let mut items: Vec<String> = Vec::new();
                items.push(labelled("ty: ", print_isatype(*ty)));
                items.push(text("rd:"));
                items.push(reg_name(*rd));
                items.push(text("rs:"));
                items.push(reg_name(*rs));
                items.push(labelled("out: ", print_decimal(*out as u64)));
                assert(texts(items@) =~= item_texts(self@));
                join("Load", &items)
            },
            MInst::Cast { rd, ty, rs, out } => {
                let mut items: Vec<String> = Vec::new();
                items.push(text("rd:"));
                items.push(reg_name(*rd));
                items.push(labelled("ty: ", print_isatype(*ty)));
                items.push(text("rs:"));
                items.push(reg_name(*rs));
                items.push(labelled("out: ", print_decimal(*out as u64)));
                assert(texts(items@) =~= item_texts(self@));
                join("Cast", &items)
            },
            MInst::Resize { var, rd, rs } => {
                let mut items: Vec<String> = Vec::new();
                items.push(labelled("var: ", print_resize(*var)));
                items.push(text("rd:"));
                items.push(reg_name(*rd));
                items.push(text("rs:"));
                items.push(reg_name(*rs));
                assert(texts(items@) =~= item_texts(self@));
                join("Resize", &items)
            },
            MInst::BinaryAlu { op, rd, rs1, rs2 } => {
                let mut items: Vec<String> = Vec::new();
                items.push(labelled("op: ", print_binary(*op)));
                items.push(text("rd:"));
                items.push(reg_name(*rd));
                items.push(text("rs1:"));
                items.push(reg_name(*rs1));
                items.push(text("rs2:"));
                items.push(reg_name(*rs2));
                assert(texts(items@) =~= item_texts(self@));
                join("BinaryAlu", &items)
            },
            MInst::DoubleAlu { op, rdl, rdh, rs1, rs2 } => {
                let mut items: Vec<String> = Vec::new();
                items.push(labelled("op: ", print_double(*op)));
                items.push(text("rdl:"));
                items.push(reg_name(*rdl));
                items.push(text("rdh:"));
                items.push(reg_name(*rdh));
                items.push(text("rs1:"));
                items.push(reg_name(*rs1));
                items.push(text("rs2:"));
                items.push(reg_name(*rs2));
                assert(texts(items@) =~= item_texts(self@));
                join("DoubleAlu", &items)
            },
            MInst::Pick { rd, cond, if_zero, if_nonzero, out } => {
                let mut items: Vec<String> = Vec::new();
                items.push(text("rd:"));
                items.push(reg_name(*rd));
                items.push(text("cond:"));
                items.push(reg_name(*cond));
                items.push(text("if_zero:"));
                items.push(reg_name(*if_zero));
                items.push(text("if_nonzero:"));
                items.push(reg_name(*if_nonzero));
                items.push(labelled("out: ", print_decimal(*out as u64)));
                assert(texts(items@) =~= item_texts(self@));
                join("Pick", &items)
            },
            MInst::UnaryAlu { op, rd, rs, .. } => {
                let mut items: Vec<String> = Vec::new();
                items.push(labelled("op: ", print_unary(*op)));
                items.push(text("rd:"));
                items.push(reg_name(*rd));
                items.push(text("rs:"));
                items.push(reg_name(*rs));
                assert(texts(items@) =~= item_texts(self@));
                join("UnaryAlu", &items)
            },
            MInst::IntCmp { cc, rd, rs1, rs2 } => {
                let mut items: Vec<String> = Vec::new();
                items.push(labelled("cc: ", print_intcc(*cc)));
                items.push(text("rd:"));
                items.push(reg_name(*rd));
                items.push(text("rs1:"));
                items.push(reg_name(*rs1));
                items.push(text("rs2:"));
                items.push(reg_name(*rs2));
                assert(texts(items@) =~= item_texts(self@));
                join("IntCmp", &items)
            },
            MInst::Call { link, fun, trig } => {
                let mut items: Vec<String> = Vec::new();
                items.push(text("link:"));
                items.push(reg_name(*link));
                items.push(text("fn_ptr:"));
                items.push(reg_name(*fun));
                items.push(labelled("trig: ", print_decimal(*trig as u64)));
                assert(texts(items@) =~= item_texts(self@));
                join("Call", &items)
            },
            MInst::CallArgs { link, rets, args, sig } => {
                let mut items: Vec<String> = Vec::new();
                items.push(text("link:"));
                items.push(reg_name(*link));
                items.push(text("rets:"));
                push_pairs(&mut items, rets);
                items.push(text("args:"));
                push_pairs(&mut items, args);
                items.push(labelled("sig: ", print_sig(sig)));
                assert(texts(items@) =~= item_texts(self@));
                join("CallArgs", &items)
            },
            MInst::JumpIssue { link, dst, kind, trig } => {
                let mut items: Vec<String> = Vec::new();
                items.push(text("link:"));
                items.push(reg_name(*link));
                items.push(print_issue(*kind, *dst, *trig));
                assert(texts(items@) =~= item_texts(self@));
                join("JumpIssue", &items)
            },
            MInst::JumpOffset { rd, dst, size_pow2, gap, trig } => {
                let mut items: Vec<String> = Vec::new();
                items.push(text("rd:"));
                items.push(reg_name(*rd));
                items.push(print_chain(*dst, *size_pow2, *gap, *trig));
                assert(texts(items@) =~= item_texts(self@));
                join("JumpOffset", &items)
            },
            MInst::JumpTrigger { link, args } => {
                let mut items: Vec<String> = Vec::new();
                items.push(text("link:"));
                items.push(reg_name(*link));
                items.push(text("args:"));
                push_regs(&mut items, args);
                assert(texts(items@) =~= item_texts(self@));
                join("JumpTrigger", &items)
            },
            MInst::ImmJump { dst } => {
                let mut items: Vec<String> = Vec::new();
                items.push(labelled("dst: ", print_label(*dst)));
                assert(texts(items@) =~= item_texts(self@));
                join("ImmJump", &items)
            },
        }
    }
}

} // verus!
