//! The register catalog: which registers each device model has, where they
//! are and how wide they are.

use vstd::prelude::*;

use vstd::string::StringSliceAdditionalSpecFns;

use crate::protocol::ProtocolVersion;
use crate::text::same_text;

verus! {

/// Who may access a register.
#[derive(Clone, Copy, Debug, PartialEq, Eq, Structural)]
pub enum Access {
    R,
    W,
    RW,
}

impl Access {
    /// The access as it is printed: `R`, `W` or `RW`.
    pub fn as_str(&self) -> (r: &'static str)
        ensures
            r@ == (match self {
                Access::R => "R"@,
                Access::W => "W"@,
                Access::RW => "RW"@,
            }),
    {
        proof {
            reveal_strlit("R");
            reveal_strlit("W");
            reveal_strlit("RW");
        }
        match self {
            Access::R => "R",
            Access::W => "W",
            Access::RW => "RW",
        }
    }
}

/// The width of a register; `Variable` ones are listed but not read or
/// written by the generic register commands.
#[derive(Clone, Copy, Debug, PartialEq, Eq, Structural)]
pub enum RegSize {
    Byte,
    Half,
    Word,
    Variable,
}

pub open spec fn size_bytes(s: RegSize) -> u16 {
    match s {
        RegSize::Byte => 1,
        RegSize::Half => 2,
        RegSize::Word => 4,
        RegSize::Variable => 0,
    }
}

impl RegSize {
    /// The width in bytes; 0 for `Variable`.
    pub fn bytes(&self) -> (r: u16)
        ensures
            r == size_bytes(*self),
    {
        match self {
            RegSize::Byte => 1,
            RegSize::Half => 2,
            RegSize::Word => 4,
            RegSize::Variable => 0,
        }
    }
}

/// One register of one model.
#[derive(Clone, Copy, Debug)]
pub struct Reg {
    pub model: &'static str,
    pub proto: ProtocolVersion,
    pub name: &'static str,
    pub address: u16,
    pub size: RegSize,
    pub access: Access,
}

impl Reg {
    pub fn new(
        model: &'static str,
        proto: ProtocolVersion,
        name: &'static str,
        address: u16,
        size: RegSize,
        access: Access,
    ) -> (r: Reg)
        ensures
            r == (Reg { model, proto, name, address, size, access }),
    {
        Reg { model, proto, name, address, size, access }
    }
}

/// A register named on the command line as `model/name`.
#[derive(Clone, Debug, PartialEq, Eq)]
pub struct RegSpec {
    pub model: String,
    pub name: String,
}

#[derive(Clone, Copy, Debug, PartialEq, Eq, Structural)]
pub enum RegSpecError {
    BadRegSpec,
}

/// The catalog.
pub open spec fn catalog() -> Seq<Reg> {
    seq![
        Reg { model: "AX-12A", proto: ProtocolVersion::V1, name: "model_number", address: 0, size: RegSize::Half, access: Access::R },
        Reg { model: "AX-12A", proto: ProtocolVersion::V1, name: "firmware_version", address: 2, size: RegSize::Byte, access: Access::R },
        Reg { model: "AX-12A", proto: ProtocolVersion::V1, name: "id", address: 3, size: RegSize::Byte, access: Access::RW },
        Reg { model: "AX-12A", proto: ProtocolVersion::V1, name: "baud_rate", address: 4, size: RegSize::Byte, access: Access::RW },
        Reg { model: "AX-12A", proto: ProtocolVersion::V1, name: "return_delay_time", address: 5, size: RegSize::Byte, access: Access::RW },
        Reg { model: "AX-12A", proto: ProtocolVersion::V1, name: "torque_enable", address: 24, size: RegSize::Byte, access: Access::RW },
        Reg { model: "AX-12A", proto: ProtocolVersion::V1, name: "led", address: 25, size: RegSize::Byte, access: Access::RW },
        Reg { model: "AX-12A", proto: ProtocolVersion::V1, name: "goal_position", address: 30, size: RegSize::Half, access: Access::RW },
        Reg { model: "AX-12A", proto: ProtocolVersion::V1, name: "moving_speed", address: 32, size: RegSize::Half, access: Access::RW },
        Reg { model: "AX-12A", proto: ProtocolVersion::V1, name: "present_position", address: 36, size: RegSize::Half, access: Access::R },
        Reg { model: "AX-12A", proto: ProtocolVersion::V1, name: "present_voltage", address: 42, size: RegSize::Byte, access: Access::R },
        Reg { model: "AX-12A", proto: ProtocolVersion::V1, name: "present_temperature", address: 43, size: RegSize::Byte, access: Access::R },
        Reg { model: "XL430-W250", proto: ProtocolVersion::V2, name: "model_number", address: 0, size: RegSize::Half, access: Access::R },
        Reg { model: "XL430-W250", proto: ProtocolVersion::V2, name: "model_information", address: 2, size: RegSize::Word, access: Access::R },
        Reg { model: "XL430-W250", proto: ProtocolVersion::V2, name: "firmware_version", address: 6, size: RegSize::Byte, access: Access::R },
        Reg { model: "XL430-W250", proto: ProtocolVersion::V2, name: "id", address: 7, size: RegSize::Byte, access: Access::RW },
        Reg { model: "XL430-W250", proto: ProtocolVersion::V2, name: "baud_rate", address: 8, size: RegSize::Byte, access: Access::RW },
        Reg { model: "XL430-W250", proto: ProtocolVersion::V2, name: "operating_mode", address: 11, size: RegSize::Byte, access: Access::RW },
        Reg { model: "XL430-W250", proto: ProtocolVersion::V2, name: "torque_enable", address: 64, size: RegSize::Byte, access: Access::RW },
        Reg { model: "XL430-W250", proto: ProtocolVersion::V2, name: "led", address: 65, size: RegSize::Byte, access: Access::RW },
        Reg { model: "XL430-W250", proto: ProtocolVersion::V2, name: "goal_position", address: 116, size: RegSize::Word, access: Access::RW },
        Reg { model: "XL430-W250", proto: ProtocolVersion::V2, name: "present_position", address: 132, size: RegSize::Word, access: Access::R },
        Reg { model: "XL430-W250", proto: ProtocolVersion::V2, name: "present_input_voltage", address: 144, size: RegSize::Half, access: Access::R },
        Reg { model: "XL430-W250", proto: ProtocolVersion::V2, name: "present_temperature", address: 146, size: RegSize::Byte, access: Access::R },
    ]
}

/// The catalog, in a vector.
pub fn registers() -> (r: Vec<Reg>)
    ensures
        r@ == catalog(),
{
    let mut t: Vec<Reg> = Vec::new();
    t.push(Reg::new("AX-12A", ProtocolVersion::V1, "model_number", 0, RegSize::Half, Access::R));
    t.push(Reg::new("AX-12A", ProtocolVersion::V1, "firmware_version", 2, RegSize::Byte, Access::R));
    t.push(Reg::new("AX-12A", ProtocolVersion::V1, "id", 3, RegSize::Byte, Access::RW));
    t.push(Reg::new("AX-12A", ProtocolVersion::V1, "baud_rate", 4, RegSize::Byte, Access::RW));
    t.push(Reg::new("AX-12A", ProtocolVersion::V1, "return_delay_time", 5, RegSize::Byte, Access::RW));
    t.push(Reg::new("AX-12A", ProtocolVersion::V1, "torque_enable", 24, RegSize::Byte, Access::RW));
    t.push(Reg::new("AX-12A", ProtocolVersion::V1, "led", 25, RegSize::Byte, Access::RW));
    t.push(Reg::new("AX-12A", ProtocolVersion::V1, "goal_position", 30, RegSize::Half, Access::RW));
    t.push(Reg::new("AX-12A", ProtocolVersion::V1, "moving_speed", 32, RegSize::Half, Access::RW));
    t.push(Reg::new("AX-12A", ProtocolVersion::V1, "present_position", 36, RegSize::Half, Access::R));
    t.push(Reg::new("AX-12A", ProtocolVersion::V1, "present_voltage", 42, RegSize::Byte, Access::R));
    t.push(Reg::new("AX-12A", ProtocolVersion::V1, "present_temperature", 43, RegSize::Byte, Access::R));
    t.push(Reg::new("XL430-W250", ProtocolVersion::V2, "model_number", 0, RegSize::Half, Access::R));
    t.push(Reg::new("XL430-W250", ProtocolVersion::V2, "model_information", 2, RegSize::Word, Access::R));
    t.push(Reg::new("XL430-W250", ProtocolVersion::V2, "firmware_version", 6, RegSize::Byte, Access::R));
    t.push(Reg::new("XL430-W250", ProtocolVersion::V2, "id", 7, RegSize::Byte, Access::RW));
    t.push(Reg::new("XL430-W250", ProtocolVersion::V2, "baud_rate", 8, RegSize::Byte, Access::RW));
    t.push(Reg::new("XL430-W250", ProtocolVersion::V2, "operating_mode", 11, RegSize::Byte, Access::RW));
    t.push(Reg::new("XL430-W250", ProtocolVersion::V2, "torque_enable", 64, RegSize::Byte, Access::RW));
    t.push(Reg::new("XL430-W250", ProtocolVersion::V2, "led", 65, RegSize::Byte, Access::RW));
    t.push(Reg::new("XL430-W250", ProtocolVersion::V2, "goal_position", 116, RegSize::Word, Access::RW));
    t.push(Reg::new("XL430-W250", ProtocolVersion::V2, "present_position", 132, RegSize::Word, Access::R));
    t.push(Reg::new("XL430-W250", ProtocolVersion::V2, "present_input_voltage", 144, RegSize::Half, Access::R));
    t.push(Reg::new("XL430-W250", ProtocolVersion::V2, "present_temperature", 146, RegSize::Byte, Access::R));
    assert(t@ =~= catalog());
    t
}

/// The registers of `model` under protocol `proto`, in catalog order.
pub open spec fn registers_of(proto: ProtocolVersion, model: Seq<char>) -> Seq<Reg> {
    catalog().filter(|r: Reg| r.proto == proto && r.model@ == model)
}

pub fn list_registers(proto: ProtocolVersion, model: &str) -> (r: Vec<Reg>)
    ensures
        r@ == registers_of(proto, model@),
{
    let t = registers();
    let ghost pred = |r: Reg| r.proto == proto && r.model@ == model@;
    let mut out: Vec<Reg> = Vec::new();
    let mut i: usize = 0;
    while i < t.len()
        invariant
            t@ == catalog(),
            0 <= i <= t@.len(),
            pred == (|r: Reg| r.proto == proto && r.model@ == model@),
            out@ == t@.subrange(0, i as int).filter(pred),
        decreases t@.len() - i,
    {
        let reg = t[i];
        let keep = reg.proto == proto && same_text(reg.model, model);
        proof {
            reveal(Seq::filter);
            assert(t@.subrange(0, i + 1).drop_last() =~= t@.subrange(0, i as int));
        }
        if keep {
            out.push(reg);
        }
        i = i + 1;
    }
    assert(t@.subrange(0, t@.len() as int) =~= t@);
    out
}

/// Whether `r` is register `name` of `model` under `proto`.
pub open spec fn matches(r: Reg, proto: ProtocolVersion, model: Seq<char>, name: Seq<char>) -> bool {
    r.proto == proto && r.model@ == model && r.name@ == name
}

/// The first catalog entry for register `name` of `model` under `proto`.
pub open spec fn lookup(proto: ProtocolVersion, model: Seq<char>, name: Seq<char>) -> Option<Reg> {
    if exists|i: int| 0 <= i < catalog().len() && matches(#[trigger] catalog()[i], proto, model, name) {
        let i = choose|i: int|
            0 <= i < catalog().len() && matches(#[trigger] catalog()[i], proto, model, name) && forall|j: int|
                0 <= j < i ==> !matches(#[trigger] catalog()[j], proto, model, name);
        Some(catalog()[i])
    } else {
        None
    }
}

pub fn find_register(proto: ProtocolVersion, regspec: RegSpec) -> (r: Option<Reg>)
    ensures
        r == lookup(proto, regspec.model@, regspec.name@),
{
    let t = registers();
    let model = regspec.model.as_str();
    let name = regspec.name.as_str();
    let mut i: usize = 0;
    while i < t.len()
        invariant
            t@ == catalog(),
            0 <= i <= t@.len(),
            model@ == regspec.model@,
            name@ == regspec.name@,
            forall|j: int| 0 <= j < i ==> !matches(#[trigger] t@[j], proto, model@, name@),
        decreases t@.len() - i,
    {
        let reg = t[i];
        if reg.proto == proto && same_text(reg.model, model) && same_text(reg.name, name) {
            proof {
                let k = choose|k: int|
                    0 <= k < catalog().len() && matches(#[trigger] catalog()[k], proto, model@, name@)
                        && forall|j: int| 0 <= j < k ==> !matches(#[trigger] catalog()[j], proto, model@, name@);
                assert(matches(catalog()[i as int], proto, model@, name@));
                if k < i {
                    assert(!matches(t@[k], proto, model@, name@));
                }
                if k > i {
                    assert(!matches(catalog()[i as int], proto, model@, name@));
                }
            }
            return Some(reg);
        }
        i = i + 1;
    }
    None
}

/// Byte-wise lexicographic order, the order of `str`.
pub open spec fn lex_lt(a: Seq<u8>, b: Seq<u8>) -> bool
    decreases a.len(),
{
    if a.len() == 0 {
        b.len() > 0
    } else if b.len() == 0 {
        false
    } else if a[0] != b[0] {
        a[0] < b[0]
    } else {
        lex_lt(a.drop_first(), b.drop_first())
    }
}

pub proof fn lemma_lex_lt_transitive(a: Seq<u8>, b: Seq<u8>, c: Seq<u8>)
    requires
        lex_lt(a, b),
        lex_lt(b, c),
    ensures
        lex_lt(a, c),
    decreases a.len(),
{
    if a.len() > 0 && b.len() > 0 && c.len() > 0 && a[0] == b[0] && b[0] == c[0] {
        lemma_lex_lt_transitive(a.drop_first(), b.drop_first(), c.drop_first());
    }
}

/// Any two distinct byte strings are ordered one way, and only one.
pub proof fn lemma_lex_lt_total(a: Seq<u8>, b: Seq<u8>)
    ensures
        a == b || lex_lt(a, b) || lex_lt(b, a),
        !(lex_lt(a, b) && lex_lt(b, a)),
        !lex_lt(a, a),
    decreases a.len(),
{
    if a.len() > 0 && b.len() > 0 {
        lemma_lex_lt_total(a.drop_first(), b.drop_first());
        lemma_lex_lt_total(a.drop_first(), a.drop_first());
        if a[0] == b[0] && a.drop_first() == b.drop_first() {
            assert(a =~= seq![a[0]] + a.drop_first());
            assert(b =~= seq![b[0]] + b.drop_first());
        }
    } else if a.len() > 0 {
        lemma_lex_lt_total(a.drop_first(), a.drop_first());
    } else if b.len() == 0 {
        assert(a =~= b);
    }
}

/// Whether `a` comes before `b` in byte order.
pub fn text_less(a: &str, b: &str) -> (r: bool)
    ensures
        r == lex_lt(a.spec_bytes(), b.spec_bytes()),
{
    let x = a.as_bytes();
    let y = b.as_bytes();
    let mut i: usize = 0;
    assert(x@.skip(0) =~= x@);
    assert(y@.skip(0) =~= y@);
    loop
        invariant
            x@ == a.spec_bytes(),
            y@ == b.spec_bytes(),
            i <= x@.len(),
            i <= y@.len(),
            lex_lt(x@, y@) == lex_lt(x@.skip(i as int), y@.skip(i as int)),
        decreases x@.len() - i,
    {
        if i == x.len() {
            return i < y.len();
        }
        if i == y.len() {
            return false;
        }
        if x[i] != y[i] {
            return x[i] < y[i];
        }
        assert(x@.skip(i as int).drop_first() =~= x@.skip(i + 1));
        assert(y@.skip(i as int).drop_first() =~= y@.skip(i + 1));
        i = i + 1;
    }
}

/// `m` is the model of some catalog entry of protocol `proto`.
pub open spec fn is_model_of(proto: ProtocolVersion, m: Seq<char>) -> bool {
    exists|k: int| 0 <= k < catalog().len() && catalog()[k].proto == proto && #[trigger] catalog()[k].model@ == m
}

/// The models known under protocol `proto`, each once, in byte order.
pub fn list_models(proto: ProtocolVersion) -> (r: Vec<&'static str>)
    ensures
        forall|i: int, j: int|
            0 <= i < j < r@.len() ==> lex_lt(r@[i].spec_bytes(), r@[j].spec_bytes()),
        forall|i: int| 0 <= i < r@.len() ==> is_model_of(proto, (#[trigger] r@[i])@),
        forall|m: Seq<char>| is_model_of(proto, m) ==> exists|i: int| 0 <= i < r@.len() && (#[trigger] r@[i])@ == m,
{
    let t = registers();
    let mut out: Vec<&'static str> = Vec::new();
    let mut i: usize = 0;
    while i < t.len()
        invariant
            t@ == catalog(),
            0 <= i <= t@.len(),
            forall|a: int, b: int|
                0 <= a < b < out@.len() ==> lex_lt(out@[a].spec_bytes(), out@[b].spec_bytes()),
            forall|q: int| 0 <= q < out@.len() ==> is_model_of(proto, (#[trigger] out@[q])@),
            forall|k: int|
                0 <= k < i && catalog()[k].proto == proto ==> exists|q: int|
                    0 <= q < out@.len() && (#[trigger] out@[q])@ == #[trigger] catalog()[k].model@,
        decreases t@.len() - i,
    {
        let reg = t[i];
        let ghost mut w: int = 0;
        let ghost out0 = out@;
        if reg.proto == proto {
            let x = reg.model;
            let mut p: usize = 0;
            while p < out.len() && text_less(out[p], x)
                invariant
                    0 <= p <= out@.len(),
                    out@ == out0,
                    forall|q: int| 0 <= q < p ==> lex_lt((#[trigger] out@[q]).spec_bytes(), x.spec_bytes()),
                decreases out@.len() - p,
            {
                p = p + 1;
            }
            if p < out.len() && same_text(out[p], x) {
                assert(out@[p as int]@ == catalog()[i as int].model@);
                proof {
                    w = p as int;
                }
            } else {
                let ghost old_out = out@;
                proof {
                    if p < old_out.len() {
                        vstd::utf8::encode_utf8_decode_utf8(old_out[p as int]@);
                        vstd::utf8::encode_utf8_decode_utf8(x@);
                        lemma_lex_lt_total(old_out[p as int].spec_bytes(), x.spec_bytes());
                        assert forall|q: int| p <= q < old_out.len() implies lex_lt(
                            x.spec_bytes(),
                            (#[trigger] old_out[q]).spec_bytes(),
                        ) by {
                            if q > p {
                                lemma_lex_lt_transitive(
                                    x.spec_bytes(),
                                    old_out[p as int].spec_bytes(),
                                    old_out[q].spec_bytes(),
                                );
                            }
                        }
                    }
                }
                out.insert(p, x);
                proof {
                    assert(out@ == old_out.insert(p as int, x));
                    assert forall|a: int, b: int|
                        0 <= a < b < out@.len() implies lex_lt(
                        out@[a].spec_bytes(),
                        out@[b].spec_bytes(),
                    ) by {
                        if a < p && b == p {
                        } else if a < p && b > p {
                            assert(out@[b] == old_out[b - 1]);
                            lemma_lex_lt_transitive(
                                out@[a].spec_bytes(),
                                x.spec_bytes(),
                                out@[b].spec_bytes(),
                            );
                        } else if a == p {
                            assert(out@[b] == old_out[b - 1]);
                        } else if a > p {
                            assert(out@[a] == old_out[a - 1]);
                            assert(out@[b] == old_out[b - 1]);
                        }
                    }
                    assert(out@[p as int]@ == catalog()[i as int].model@);
                    w = p as int;
                    assert forall|q: int| 0 <= q < out@.len() implies is_model_of(
                        proto,
                        (#[trigger] out@[q])@,
                    ) by {
                        if q < p {
                            assert(out@[q] == old_out[q]);
                        } else if q > p {
                            assert(out@[q] == old_out[q - 1]);
                        } else {
                            assert(catalog()[i as int].model@ == out@[q]@);
                        }
                    }
                    assert forall|k: int|
                        0 <= k < i && catalog()[k].proto == proto implies exists|q: int|
                            0 <= q < out@.len() && (#[trigger] out@[q])@
                                == #[trigger] catalog()[k].model@ by {
                        let q0 = choose|q: int|
                            0 <= q < old_out.len() && (#[trigger] old_out[q])@ == catalog()[k].model@;
                        if q0 < p {
                            assert(out@[q0] == old_out[q0]);
                        } else {
                            assert(out@[q0 + 1] == old_out[q0]);
                        }
                    }
                }
            }
        }
        proof {
            assert forall|k: int|
                0 <= k < i + 1 && catalog()[k].proto == proto implies exists|q: int|
                    0 <= q < out@.len() && (#[trigger] out@[q])@ == #[trigger] catalog()[k].model@ by {
                if k == i {
                    assert(0 <= w < out@.len() && out@[w]@ == catalog()[k].model@);
                } else if out@ == out0 {
                    let q0 = choose|q: int|
                        0 <= q < out0.len() && (#[trigger] out0[q])@ == catalog()[k].model@;
                    assert(out@[q0]@ == catalog()[k].model@);
                }
            }
        }
        i = i + 1;
    }
    proof {
        assert forall|m: Seq<char>| is_model_of(proto, m) implies exists|q: int|
            0 <= q < out@.len() && (#[trigger] out@[q])@ == m by {
            let k = choose|k: int|
                0 <= k < catalog().len() && catalog()[k].proto == proto && #[trigger] catalog()[k].model@ == m;
            assert(catalog()[k].proto == proto);
        }
    }
    out
}

/// A name byte: a letter, a digit, `-` or `_`.
pub open spec fn is_name_byte(c: u8) -> bool {
    c == 0x2D || c == 0x5F || (0x30 <= c <= 0x39) || (0x41 <= c <= 0x5A) || (0x61 <= c <= 0x7A)
}

/// `b` is `model/name`, both non-empty, with the `/` at `p`.
pub open spec fn regspec_at(b: Seq<u8>, p: int) -> bool {
    &&& 0 < p < b.len() - 1
    &&& b[p] == 0x2F
    &&& forall|i: int| 0 <= i < b.len() && i != p ==> is_name_byte(#[trigger] b[i])
}

impl RegSpec {
    /// Parses `model/name`, where both parts are non-empty runs of letters,
    /// digits, `-` and `_`.
    pub fn parse(s: &str) -> (r: Result<RegSpec, RegSpecError>)
        ensures
            (exists|p: int| regspec_at(s.spec_bytes(), p)) <==> r is Ok,
            forall|p: int|
                regspec_at(s.spec_bytes(), p) ==> r is Ok && vstd::utf8::encode_utf8(
                    r->Ok_0.model@,
                ) == s.spec_bytes().subrange(0, p) && vstd::utf8::encode_utf8(r->Ok_0.name@)
                    == s.spec_bytes().subrange(p + 1, s.spec_bytes().len() as int),
    {
        let b = s.as_bytes();
        let n = b.len();
        let mut slash: usize = n;
        let mut i: usize = 0;
        while i < n
            invariant
                b@ == s.spec_bytes(),
                n == b@.len(),
                0 <= i <= n,
                slash == n || (slash < i && b@[slash as int] == 0x2F),
                forall|k: int| 0 <= k < i && k != slash ==> is_name_byte(#[trigger] b@[k]),
            decreases n - i,
        {
            let c = b[i];
            let name_byte = c == 0x2D || c == 0x5F || (0x30 <= c && c <= 0x39) || (0x41 <= c && c
                <= 0x5A) || (0x61 <= c && c <= 0x7A);
            if !name_byte {
                if c != 0x2F || slash != n {
                    proof {
                        assert forall|p: int| !regspec_at(b@, p) by {
                            if regspec_at(b@, p) {
                                if c != 0x2F {
                                    assert(i != p);
                                } else {
                                    assert(slash != p || i != p);
                                    if slash != p {
                                        assert(is_name_byte(b@[slash as int]) || slash == p);
                                    }
                                }
                            }
                        }
                    }
                    return Err(RegSpecError::BadRegSpec);
                }
                slash = i;
            }
            i = i + 1;
        }
        if slash == n || slash == 0 || slash + 1 == n {
            proof {
                assert forall|p: int| !regspec_at(b@, p) by {
                    if regspec_at(b@, p) {
                        assert(!is_name_byte(b@[p]));
                    }
                }
            }
            return Err(RegSpecError::BadRegSpec);
        }
        proof {
            vstd::utf8::encode_utf8_valid_utf8(s@);
            vstd::utf8::is_char_boundary_iff_is_leading_byte(s.spec_bytes(), slash as int);
            assert forall|p: int| regspec_at(b@, p) implies p == slash by {
                if p != slash {
                    assert(!is_name_byte(b@[p]));
                }
            }
        }
        let (model, rest) = s.split_at(slash);
        proof {
            vstd::utf8::encode_utf8_valid_utf8(rest@);
            vstd::utf8::is_char_boundary_iff_is_leading_byte(rest.spec_bytes(), 1);
            assert(rest.spec_bytes()[1] == b@[slash + 1]);
        }
        let (_, name) = rest.split_at(1);
        proof {
            assert(regspec_at(b@, slash as int));
            assert(name.spec_bytes() =~= b@.subrange(slash + 1, n as int));
        }
        Ok(RegSpec { model: model.to_owned(), name: name.to_owned() })
    }
}

/// The little-endian bytes of `value` in a register of size `s`, if it fits.
pub open spec fn value_bytes_spec(s: RegSize, value: u32) -> Option<Seq<u8>> {
    match s {
        RegSize::Byte => if value <= 0xFF {
            Some(seq![value as u8])
        } else {
            None
        },
        RegSize::Half => if value <= 0xFFFF {
            Some(seq![(value % 256) as u8, (value / 256) as u8])
        } else {
            None
        },
        RegSize::Word => Some(
            seq![
                (value % 256) as u8,
                ((value / 256) % 256) as u8,
                ((value / 65536) % 256) as u8,
                (value / 16777216) as u8,
            ],
        ),
        RegSize::Variable => None,
    }
}

/// The bytes to write for `value` into a register of size `s`; `None` when
/// the value does not fit or the register has no fixed size.
pub fn value_bytes(s: RegSize, value: u32) -> (r: Option<Vec<u8>>)
    ensures
        match value_bytes_spec(s, value) {
            Some(b) => r is Some && r->Some_0@ == b,
            None => r is None,
        },
{
    let mut out: Vec<u8> = Vec::new();
    match s {
        RegSize::Byte => {
            if value > 0xFF {
                return None;
            }
            out.push(value as u8);
        },
        RegSize::Half => {
            if value > 0xFFFF {
                return None;
            }
            out.push((value % 256) as u8);
            out.push((value / 256) as u8);
        },
        RegSize::Word => {
            out.push((value % 256) as u8);
            out.push(((value / 256) % 256) as u8);
            out.push(((value / 65536) % 256) as u8);
            out.push((value / 16777216) as u8);
        },
        RegSize::Variable => {
            return None;
        },
    }
    assert(out@ =~= value_bytes_spec(s, value)->Some_0);
    Some(out)
}

/// The unsigned value of up to four little-endian bytes.
pub open spec fn le_value_spec(b: Seq<u8>) -> nat
    decreases b.len(),
{
    if b.len() == 0 {
        0
    } else {
        (b[0] + 256 * le_value_spec(b.drop_first())) as nat
    }
}

/// The unsigned value of up to four little-endian bytes.
pub fn le_value(b: &[u8]) -> (r: u32)
    requires
        b@.len() <= 4,
    ensures
        r == le_value_spec(b@),
{
    let n = b.len();
    let mut acc: u32 = 0;
    let mut i: usize = n;
    assert(b@.subrange(n as int, n as int) =~= Seq::<u8>::empty());
    while i > 0
        invariant
            n == b@.len() <= 4,
            0 <= i <= n,
            acc == le_value_spec(b@.subrange(i as int, n as int)),
            acc < pow256(n - i),
        decreases i,
    {
        let ghost rest = b@.subrange(i as int, n as int);
        assert(b@.subrange(i - 1, n as int).drop_first() =~= rest);
        assert(pow256(n - i + 1) == 256 * pow256(n - i));
        assert(pow256(n - i + 1) <= 0x1_0000_0000) by {
            lemma_pow256_bound((n - i + 1) as nat);
        }
        assert(b@[i - 1] + 256 * acc < pow256(n - i + 1)) by (nonlinear_arith)
            requires
                acc < pow256(n - i),
                b@[i - 1] < 256,
                pow256(n - i + 1) == 256 * pow256(n - i),
        ;
        acc = b[i - 1] as u32 + 256 * acc;
        i = i - 1;
    }
    assert(b@.subrange(0, n as int) =~= b@);
    acc
}

pub open spec fn pow256(k: int) -> nat
    decreases k,
{
    if k <= 0 {
        1
    } else {
        256 * pow256(k - 1)
    }
}

proof fn lemma_pow256_bound(k: nat)
    requires
        k <= 4,
    ensures
        pow256(k as int) <= 0x1_0000_0000,
{
    reveal_with_fuel(pow256, 5);
}

} // verus!
