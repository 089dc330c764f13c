//! Bytecode on the wire: little-endian, fixed-width primitives, read back
//! through a [`Reader`] that never panics on short input.

use vstd::prelude::*;
use vstd::bytes::{
    spec_u16_from_le_bytes, spec_u16_to_le_bytes, spec_u32_from_le_bytes, spec_u32_to_le_bytes,
    spec_u64_from_le_bytes, spec_u64_to_le_bytes, u16_from_le_bytes, u16_to_le_bytes,
    u32_from_le_bytes, u32_to_le_bytes, u64_from_le_bytes,
};
use vstd::utf8::{decode_utf8, encode_utf8, valid_utf8};
use crate::vm::op::{Cmp, Op, Reg};
use crate::vm::value::Value;
use crate::vm::program::{FnDef, FnTable, Program};
use crate::text::{decimal, decimal_string, lemma_seq_less_asym, owned, seq_less};

verus! {

broadcast use vstd::string::group_string_axioms;

/// The wire format's own version, independent of the machine's.
pub const FORMAT_VERSION: u16 = 1;

/// The tag an extension instruction is written with.
pub const TAG_EXT: u8 = 255;

#[derive(Debug, PartialEq, Eq)]
pub enum WireError {
    /// Not bytecode at all.
    NotBytecode,
    /// Bytecode from a different format version.
    Version { found: u16, expected: u16 },
    /// Ran out of input: always an error, never a panic.
    Truncated,
    /// A tag this build has no instruction for.
    UnknownOpcode(u8),
    UnknownTag { what: &'static str, tag: u8 },
    /// Text that was not UTF-8.
    BadString,
}

impl WireError {
    pub open spec fn message(&self) -> Seq<char> {
        match self {
            WireError::NotBytecode => "not NailHammer bytecode"@,
            WireError::Version { found, expected } => "bytecode format "@ + decimal(*found as nat)
                + ", but this VM reads "@ + decimal(*expected as nat),
            WireError::Truncated => "bytecode ended early"@,
            WireError::UnknownOpcode(t) => "unknown opcode "@ + decimal(*t as nat),
            WireError::UnknownTag { what, tag } => "unknown "@ + what@ + " tag "@ + decimal(*tag as nat),
            WireError::BadString => "a string was not valid UTF-8"@,
        }
    }

    /// The error in words.
    pub fn to_string(&self) -> (s: String)
        ensures
            s@ == self.message(),
    {
        match self {
            WireError::NotBytecode => owned("not NailHammer bytecode"),
            WireError::Version { found, expected } => {
                let mut s = owned("bytecode format ");
                s.append(decimal_string(*found as u64).as_str());
                s.append(", but this VM reads ");
                s.append(decimal_string(*expected as u64).as_str());
                s
            },
            WireError::Truncated => owned("bytecode ended early"),
            WireError::UnknownOpcode(t) => {
                let mut s = owned("unknown opcode ");
                s.append(decimal_string(*t as u64).as_str());
                s
            },
            WireError::UnknownTag { what, tag } => {
                let mut s = owned("unknown ");
                s.append(what);
                s.append(" tag ");
                s.append(decimal_string(*tag as u64).as_str());
                s
            },
            WireError::BadString => owned("a string was not valid UTF-8"),
        }
    }
}

/// How a language's own instructions cross the wire. A language with
/// extensions says how they encode, because nothing else can know.
pub trait Wire: Sized {
    fn encode(&self, out: &mut Vec<u8>);

    fn decode(r: &mut Reader<'_>) -> Result<Self, WireError>;
}

// ---------------------------------------------------------------------------
// Reading
// ---------------------------------------------------------------------------

pub struct Reader<'a> {
    bytes: &'a [u8],
    pos: usize,
}

impl<'a> Reader<'a> {
    /// The whole input.
    pub closed spec fn input(&self) -> Seq<u8> {
        self.bytes@
    }

    /// How much of the input has been read.
    pub closed spec fn position(&self) -> nat {
        self.pos as nat
    }

    /// What is left to read.
    pub open spec fn rest(&self) -> Seq<u8> {
        self.input().subrange(self.position() as int, self.input().len() as int)
    }

    #[verifier::type_invariant]
    closed spec fn wf(self) -> bool {
        self.pos <= self.bytes@.len()
    }

    pub fn new(bytes: &'a [u8]) -> (r: Reader<'a>)
        ensures
            r.input() == bytes@,
            r.position() == 0,
    {
        Reader { bytes, pos: 0 }
    }

    /// After reading `n` bytes, what is left is what was left, less `n`.
    pub proof fn lemma_rest_after(&self, later: &Reader<'a>, n: nat)
        requires
            later.input() == self.input(),
            later.position() == self.position() + n,
            self.position() + n <= self.input().len(),
        ensures
            later.rest() == self.rest().skip(n as int),
    {
        assert(later.rest() =~= self.rest().skip(n as int));
    }

    /// The next `n` bytes, or `Truncated` with nothing read.
    fn take(&mut self, n: usize) -> (r: Result<Vec<u8>, WireError>)
        ensures
            final(self).input() == old(self).input(),
            old(self).position() <= old(self).input().len(),
            r matches Ok(b) ==> n <= old(self).rest().len() && b@ == old(self).rest().take(n as int)
                && final(self).position() == old(self).position() + n,
            r matches Err(e) ==> n > old(self).rest().len() && e == WireError::Truncated && final(self).position()
                == old(self).position(),
    {
        proof { use_type_invariant(&*self); }
        if n > self.bytes.len() - self.pos {
            return Err(WireError::Truncated);
        }
        let end = self.pos + n;
        let mut b: Vec<u8> = Vec::new();
        let mut k: usize = self.pos;
        while k < end
            invariant
                self.pos <= k <= end,
                end == self.pos + n,
                end <= self.bytes@.len(),
                b@ == self.bytes@.subrange(self.pos as int, k as int),
            decreases end - k,
        {
            b.push(self.bytes[k]);
            proof {
                assert(self.bytes@.subrange(self.pos as int, k + 1) =~= self.bytes@.subrange(
                    self.pos as int,
                    k as int,
                ).push(self.bytes@[k as int]));
            }
            k = k + 1;
        }
        proof {
            assert(b@ =~= old(self).rest().take(n as int));
        }
        self.pos = end;
        Ok(b)
    }

    pub fn u8(&mut self) -> (r: Result<u8, WireError>)
        ensures
            final(self).input() == old(self).input(),
            r matches Ok(v) ==> old(self).rest().len() >= 1 && v == old(self).rest()[0]
                && final(self).position() == old(self).position() + 1,
            r matches Err(e) ==> old(self).rest().len() < 1 && e == WireError::Truncated
                && final(self).position() == old(self).position(),
    {
        match self.take(1) {
            Ok(b) => Ok(b[0]),
            Err(e) => Err(e),
        }
    }

    pub fn u16(&mut self) -> (r: Result<u16, WireError>)
        ensures
            final(self).input() == old(self).input(),
            r matches Ok(v) ==> old(self).rest().len() >= 2 && v == spec_u16_from_le_bytes(old(self).rest().take(2))
                && final(self).position() == old(self).position() + 2,
            r matches Err(e) ==> old(self).rest().len() < 2 && e == WireError::Truncated
                && final(self).position() == old(self).position(),
    {
        match self.take(2) {
            Ok(b) => Ok(u16_from_le_bytes(b.as_slice())),
            Err(e) => Err(e),
        }
    }

    pub fn u32(&mut self) -> (r: Result<u32, WireError>)
        ensures
            final(self).input() == old(self).input(),
            r matches Ok(v) ==> old(self).rest().len() >= 4 && v == spec_u32_from_le_bytes(old(self).rest().take(4))
                && final(self).position() == old(self).position() + 4,
            r matches Err(e) ==> old(self).rest().len() < 4 && e == WireError::Truncated
                && final(self).position() == old(self).position(),
    {
        match self.take(4) {
            Ok(b) => Ok(u32_from_le_bytes(b.as_slice())),
            Err(e) => Err(e),
        }
    }

    /// A `u32`, widened.
    pub fn usize(&mut self) -> (r: Result<usize, WireError>)
        ensures
            final(self).input() == old(self).input(),
            r matches Ok(v) ==> old(self).rest().len() >= 4 && v as int == spec_u32_from_le_bytes(old(self).rest().take(4)) as int
                && final(self).position() == old(self).position() + 4,
            r matches Err(e) ==> old(self).rest().len() < 4 && e == WireError::Truncated
                && final(self).position() == old(self).position(),
    {
        match self.u32() {
            Ok(v) => Ok(v as usize),
            Err(e) => Err(e),
        }
    }

    /// The eight bytes of an `f64`, as the `u64` holding its bits.
    pub fn f64_bits(&mut self) -> (r: Result<u64, WireError>)
        ensures
            final(self).input() == old(self).input(),
            r matches Ok(v) ==> old(self).rest().len() >= 8 && v == spec_u64_from_le_bytes(old(self).rest().take(8))
                && final(self).position() == old(self).position() + 8,
            r matches Err(e) ==> old(self).rest().len() < 8 && e == WireError::Truncated
                && final(self).position() == old(self).position(),
    {
        match self.take(8) {
            Ok(b) => Ok(u64_from_le_bytes(b.as_slice())),
            Err(e) => Err(e),
        }
    }

    pub fn reg(&mut self) -> (r: Result<Reg, WireError>)
        ensures
            final(self).input() == old(self).input(),
            r matches Ok(v) ==> old(self).rest().len() >= 2 && v == spec_u16_from_le_bytes(old(self).rest().take(2))
                && final(self).position() == old(self).position() + 2,
            r matches Err(e) ==> old(self).rest().len() < 2 && e == WireError::Truncated
                && final(self).position() == old(self).position(),
    {
        self.u16()
    }

    /// A length-prefixed UTF-8 string.
    ///
    /// The length is read first; if the text it announces is not all there,
    /// the result is `Truncated` with only the length consumed, and if it is
    /// not UTF-8, `BadString` with the text consumed too.
    pub fn str(&mut self) -> (r: Result<String, WireError>)
        ensures
            final(self).input() == old(self).input(),
            ({
                let rest = old(self).rest();
                let n = spec_u32_from_le_bytes(rest.take(4)) as int;
                if rest.len() < 4 {
                    r matches Err(e) && e == WireError::Truncated && final(self).position() == old(self).position()
                } else if rest.len() < 4 + n {
                    r matches Err(e) && e == WireError::Truncated && final(self).position() == old(self).position() + 4
                } else if !valid_utf8(rest.subrange(4, 4 + n)) {
                    r matches Err(e) && e == WireError::BadString && final(self).position() == old(self).position() + 4 + n
                } else {
                    r matches Ok(s) && s@ == decode_utf8(rest.subrange(4, 4 + n)) && final(self).position()
                        == old(self).position() + 4 + n
                }
            }),
    {
        let ghost rest0 = self.rest();
        let ghost p0 = self.position();
        let ghost in0 = self.input();
        let n = match self.usize() {
            Ok(n) => n,
            Err(e) => return Err(e),
        };
        proof {
            use_type_invariant(&*self);
            assert(self.position() == p0 + 4);
            assert(self.input() == in0);
            assert(rest0.len() >= 4);
            assert(self.rest().len() == rest0.skip(4).len());
            assert forall|i: int| 0 <= i < self.rest().len() implies self.rest()[i] == rest0.skip(4)[i] by {
                assert(self.rest()[i] == in0[p0 + 4 + i]);
                assert(rest0[4 + i] == in0[p0 + 4 + i]);
            }
            assert(self.rest() =~= rest0.skip(4));
        }
        let b = match self.take(n) {
            Ok(b) => b,
            Err(e) => return Err(e),
        };
        proof {
            assert(b@ =~= rest0.subrange(4, 4 + n));
        }
        match utf8_string(b.as_slice()) {
            Some(s) => Ok(s),
            None => Err(WireError::BadString),
        }
    }
}

/// std's `String::from_utf8`: the text the bytes encode when they are UTF-8.
#[verifier::external_body]
fn utf8_string(b: &[u8]) -> (r: Option<String>)
    ensures
        r is Some <==> valid_utf8(b@),
        r matches Some(s) ==> s@ == decode_utf8(b@),
{
    String::from_utf8(b.to_vec()).ok()
}

// ---------------------------------------------------------------------------
// Writing
// ---------------------------------------------------------------------------

pub fn put_u16(out: &mut Vec<u8>, v: u16)
    ensures
        final(out)@ == old(out)@ + spec_u16_to_le_bytes(v),
{
    let b = u16_to_le_bytes(v);
    out.extend_from_slice(b.as_slice());
    proof {
        assert(final(out)@ =~= old(out)@ + spec_u16_to_le_bytes(v));
    }
}

pub fn put_u32(out: &mut Vec<u8>, v: u32)
    ensures
        final(out)@ == old(out)@ + spec_u32_to_le_bytes(v),
{
    let b = u32_to_le_bytes(v);
    out.extend_from_slice(b.as_slice());
    proof {
        assert(final(out)@ =~= old(out)@ + spec_u32_to_le_bytes(v));
    }
}

/// A `usize` as the `u32` the format holds; wider values are truncated.
pub fn put_usize(out: &mut Vec<u8>, v: usize)
    ensures
        final(out)@ == old(out)@ + spec_u32_to_le_bytes(v as u32),
{
    put_u32(out, v as u32);
}

/// The bits of an `f64`, eight bytes little-endian.
pub fn put_f64_bits(out: &mut Vec<u8>, bits: u64)
    ensures
        final(out)@ == old(out)@ + spec_u64_to_le_bytes(bits),
{
    let b = vstd::bytes::u64_to_le_bytes(bits);
    out.extend_from_slice(b.as_slice());
    proof {
        assert(final(out)@ =~= old(out)@ + spec_u64_to_le_bytes(bits));
    }
}

/// What [`put_str`] writes for the text `s`.
pub open spec fn str_bytes(s: Seq<char>) -> Seq<u8> {
    spec_u32_to_le_bytes((encode_utf8(s).len() as usize) as u32) + encode_utf8(s)
}

/// The byte length as a `u32`, then the UTF-8 bytes.
pub fn put_str(out: &mut Vec<u8>, s: &str)
    ensures
        final(out)@ == old(out)@ + str_bytes(s@),
{
    put_usize(out, s.len());
    out.extend_from_slice(s.as_bytes());
    proof {
        assert(final(out)@ =~= old(out)@ + str_bytes(s@));
    }
}

/// What is written is read back: a `u16`, a `u32`, the bits of an `f64`, and
/// any text whose UTF-8 form is shorter than 2^32 bytes, each followed by
/// anything at all.
pub proof fn written_values_read_back(a: u16, b: u32, c: u64, s: Seq<char>, tail: Seq<u8>)
    requires
        encode_utf8(s).len() < 0x1_0000_0000,
    ensures
        spec_u16_from_le_bytes((spec_u16_to_le_bytes(a) + tail).take(2)) == a,
        spec_u32_from_le_bytes((spec_u32_to_le_bytes(b) + tail).take(4)) == b,
        spec_u64_from_le_bytes((spec_u64_to_le_bytes(c) + tail).take(8)) == c,
        ({
            let w = str_bytes(s) + tail;
            let n = spec_u32_from_le_bytes(w.take(4)) as int;
            &&& w.len() >= 4 + n
            &&& valid_utf8(w.subrange(4, 4 + n))
            &&& decode_utf8(w.subrange(4, 4 + n)) == s
        }),
{
    vstd::bytes::lemma_auto_spec_u16_to_from_le_bytes();
    vstd::bytes::lemma_auto_spec_u32_to_from_le_bytes();
    vstd::bytes::lemma_auto_spec_u64_to_from_le_bytes();
    assert((spec_u16_to_le_bytes(a) + tail).take(2) =~= spec_u16_to_le_bytes(a));
    assert((spec_u32_to_le_bytes(b) + tail).take(4) =~= spec_u32_to_le_bytes(b));
    assert((spec_u64_to_le_bytes(c) + tail).take(8) =~= spec_u64_to_le_bytes(c));
    let e = encode_utf8(s);
    let len = (e.len() as usize) as u32;
    let w = str_bytes(s) + tail;
    assert(w.take(4) =~= spec_u32_to_le_bytes(len));
    assert(spec_u32_from_le_bytes(w.take(4)) == len);
    assert(len as int == e.len());
    assert(w.subrange(4, 4 + e.len() as int) =~= e);
    vstd::utf8::encode_utf8_valid_utf8(s);
    vstd::utf8::encode_utf8_decode_utf8(s);
}


// ---------------------------------------------------------------------------
// The layout of instructions
//
// Every instruction is a tag byte followed by fields, and each field is one
// of a few kinds. Tags are explicit and permanent: a new instruction takes
// the next free number and none is ever reused, so a stream written before
// it existed still decodes.
// ---------------------------------------------------------------------------

pub const TAG_LOADK: u8 = 0;
pub const TAG_MOVE: u8 = 1;
pub const TAG_ADD: u8 = 2;
pub const TAG_SUB: u8 = 3;
pub const TAG_MUL: u8 = 4;
pub const TAG_DIV: u8 = 5;
pub const TAG_REM: u8 = 6;
pub const TAG_POW: u8 = 7;
pub const TAG_NEG: u8 = 8;
pub const TAG_NOT: u8 = 9;
pub const TAG_BITNOT: u8 = 10;
pub const TAG_AND: u8 = 11;
pub const TAG_OR: u8 = 12;
pub const TAG_XOR: u8 = 13;
pub const TAG_SHL: u8 = 14;
pub const TAG_SHR: u8 = 15;
pub const TAG_COMPARE: u8 = 16;
pub const TAG_LOADGLOBAL: u8 = 17;
pub const TAG_STOREGLOBAL: u8 = 18;
pub const TAG_JUMP: u8 = 19;
pub const TAG_JUMPIFFALSE: u8 = 20;
pub const TAG_JUMPIFTRUE: u8 = 21;
pub const TAG_PRINT: u8 = 22;
pub const TAG_HALT: u8 = 23;
pub const TAG_AWAIT: u8 = 24;
pub const TAG_CALL: u8 = 25;
pub const TAG_RETURN: u8 = 26;
pub const TAG_RETURNUNIT: u8 = 27;
pub const TAG_NEWARRAY: u8 = 28;
pub const TAG_INDEX: u8 = 29;
pub const TAG_SETINDEX: u8 = 30;
pub const TAG_LEN: u8 = 31;

pub const V_NIL: u8 = 0;
pub const V_BOOL: u8 = 1;
pub const V_NUM: u8 = 2;
pub const V_STR: u8 = 3;

/// The kinds of field an instruction can carry.
#[derive(Clone, Copy, Debug, PartialEq, Eq, Structural)]
pub enum Field {
    /// A register, two bytes.
    Reg,
    /// A `u32`, four bytes: a slot, a jump target, a count.
    Word,
    /// A comparison, one byte.
    Test,
    /// A tagged value.
    Value,
    /// Length-prefixed text.
    Text,
}

/// What one field holds.
pub enum Item {
    Reg(u16),
    Word(u32),
    Test(Cmp),
    Nil,
    Bool(bool),
    Num(u64),
    /// A string value.
    Str(Seq<char>),
    /// An instruction's own text, such as a call's key.
    Text(Seq<char>),
}

/// The fields that follow each tag; `None` for a tag no instruction has.
/// The extension tag has no fixed layout: its payload is the extension's own.
pub open spec fn layout(tag: u8) -> Option<Seq<Field>> {
    if tag == TAG_LOADK {
        Some(seq![Field::Reg, Field::Value])
    } else if tag == TAG_MOVE || tag == TAG_NEG || tag == TAG_NOT || tag == TAG_BITNOT || tag == TAG_AWAIT
        || tag == TAG_LEN {
        Some(seq![Field::Reg, Field::Reg])
    } else if (TAG_ADD <= tag <= TAG_POW) || (TAG_AND <= tag <= TAG_SHR) || tag == TAG_INDEX
        || tag == TAG_SETINDEX {
        Some(seq![Field::Reg, Field::Reg, Field::Reg])
    } else if tag == TAG_COMPARE {
        Some(seq![Field::Test, Field::Reg, Field::Reg, Field::Reg])
    } else if tag == TAG_LOADGLOBAL || tag == TAG_JUMPIFFALSE || tag == TAG_JUMPIFTRUE {
        Some(seq![Field::Reg, Field::Word])
    } else if tag == TAG_STOREGLOBAL {
        Some(seq![Field::Word, Field::Reg])
    } else if tag == TAG_JUMP {
        Some(seq![Field::Word])
    } else if tag == TAG_PRINT || tag == TAG_RETURN {
        Some(seq![Field::Reg])
    } else if tag == TAG_HALT || tag == TAG_RETURNUNIT {
        Some(Seq::<Field>::empty())
    } else if tag == TAG_NEWARRAY {
        Some(seq![Field::Reg, Field::Reg, Field::Word])
    } else if tag == TAG_CALL {
        Some(seq![Field::Reg, Field::Reg, Field::Word, Field::Text, Field::Text])
    } else {
        None
    }
}

/// Whether an item is of the kind a field holds.
pub open spec fn fits(f: Field, it: Item) -> bool {
    match f {
        Field::Reg => it is Reg,
        Field::Word => it is Word,
        Field::Test => it is Test,
        Field::Value => it is Nil || it is Bool || it is Num || it is Str,
        Field::Text => it is Text,
    }
}

/// The byte a comparison is written as.
pub open spec fn test_byte(c: Cmp) -> u8 {
    match c {
        Cmp::Eq => 0,
        Cmp::Ne => 1,
        Cmp::Lt => 2,
        Cmp::Le => 3,
        Cmp::Gt => 4,
        Cmp::Ge => 5,
    }
}

/// The comparison a byte stands for.
pub open spec fn test_of_byte(t: u8) -> Option<Cmp> {
    if t == 0 {
        Some(Cmp::Eq)
    } else if t == 1 {
        Some(Cmp::Ne)
    } else if t == 2 {
        Some(Cmp::Lt)
    } else if t == 3 {
        Some(Cmp::Le)
    } else if t == 4 {
        Some(Cmp::Gt)
    } else if t == 5 {
        Some(Cmp::Ge)
    } else {
        None
    }
}

/// What a field is written as.
pub open spec fn item_bytes(it: Item) -> Seq<u8> {
    match it {
        Item::Reg(r) => spec_u16_to_le_bytes(r),
        Item::Word(w) => spec_u32_to_le_bytes(w),
        Item::Test(c) => seq![test_byte(c)],
        Item::Nil => seq![V_NIL],
        Item::Bool(b) => seq![V_BOOL, if b { 1u8 } else { 0u8 }],
        Item::Num(n) => seq![V_NUM] + spec_u64_to_le_bytes(n),
        Item::Str(s) => seq![V_STR] + str_bytes(s),
        Item::Text(s) => str_bytes(s),
    }
}

/// Fields written one after another.
pub open spec fn items_bytes(items: Seq<Item>) -> Seq<u8>
    decreases items.len(),
{
    if items.len() == 0 {
        Seq::empty()
    } else {
        items_bytes(items.drop_last()) + item_bytes(items.last())
    }
}

/// Reading length-prefixed text: the text and how many bytes it took.
pub open spec fn read_text(b: Seq<u8>) -> Result<(Seq<char>, nat), WireError> {
    let n = spec_u32_from_le_bytes(b.take(4)) as int;
    if b.len() < 4 || b.len() < 4 + n {
        Err(WireError::Truncated)
    } else if !valid_utf8(b.subrange(4, 4 + n)) {
        Err(WireError::BadString)
    } else {
        Ok((decode_utf8(b.subrange(4, 4 + n)), (4 + n) as nat))
    }
}

/// Reading a tagged value.
pub open spec fn read_value(b: Seq<u8>) -> Result<(Item, nat), WireError> {
    if b.len() < 1 {
        Err(WireError::Truncated)
    } else if b[0] == V_NIL {
        Ok((Item::Nil, 1))
    } else if b[0] == V_BOOL {
        if b.len() < 2 {
            Err(WireError::Truncated)
        } else {
            Ok((Item::Bool(b[1] != 0), 2))
        }
    } else if b[0] == V_NUM {
        if b.len() < 9 {
            Err(WireError::Truncated)
        } else {
            Ok((Item::Num(spec_u64_from_le_bytes(b.subrange(1, 9))), 9))
        }
    } else if b[0] == V_STR {
        match read_text(b.skip(1)) {
            Ok((s, n)) => Ok((Item::Str(s), n + 1)),
            Err(e) => Err(e),
        }
    } else {
        Err(WireError::UnknownTag { what: "value", tag: b[0] })
    }
}

/// Reading one field of the given kind: the item and how many bytes it took.
pub open spec fn read_field(f: Field, b: Seq<u8>) -> Result<(Item, nat), WireError> {
    match f {
        Field::Reg => if b.len() < 2 {
            Err(WireError::Truncated)
        } else {
            Ok((Item::Reg(spec_u16_from_le_bytes(b.take(2))), 2))
        },
        Field::Word => if b.len() < 4 {
            Err(WireError::Truncated)
        } else {
            Ok((Item::Word(spec_u32_from_le_bytes(b.take(4))), 4))
        },
        Field::Test => if b.len() < 1 {
            Err(WireError::Truncated)
        } else {
            match test_of_byte(b[0]) {
                Some(c) => Ok((Item::Test(c), 1)),
                None => Err(WireError::UnknownTag { what: "comparison", tag: b[0] }),
            }
        },
        Field::Value => read_value(b),
        Field::Text => match read_text(b) {
            Ok((s, n)) => Ok((Item::Text(s), n)),
            Err(e) => Err(e),
        },
    }
}

/// Reading fields in order, stopping at the first that fails.
pub open spec fn read_fields(fs: Seq<Field>, b: Seq<u8>) -> Result<(Seq<Item>, nat), WireError>
    decreases fs.len(),
{
    if fs.len() == 0 {
        Ok((Seq::empty(), 0))
    } else {
        match read_fields(fs.drop_last(), b) {
            Err(e) => Err(e),
            Ok((items, n)) => match read_field(fs.last(), b.skip(n as int)) {
                Err(e) => Err(e),
                Ok((it, m)) => Ok((items.push(it), n + m)),
            },
        }
    }
}


/// The item a value is written as.
pub open spec fn value_item(v: Value) -> Item {
    match v {
        Value::Nil => Item::Nil,
        Value::Bool(b) => Item::Bool(b),
        Value::Num(n) => Item::Num(n),
        Value::Str(s) => Item::Str(s@),
    }
}

/// One field, as read or about to be written.
pub enum Got {
    Reg(u16),
    Word(u32),
    Test(Cmp),
    Val(Value),
    Text(String),
}

pub open spec fn got_item(g: Got) -> Item {
    match g {
        Got::Reg(r) => Item::Reg(r),
        Got::Word(w) => Item::Word(w),
        Got::Test(c) => Item::Test(c),
        Got::Val(v) => value_item(v),
        Got::Text(s) => Item::Text(s@),
    }
}

pub open spec fn got_items(g: Seq<Got>) -> Seq<Item> {
    g.map_values(|x: Got| got_item(x))
}

/// Once a prefix of the fields fails to read, reading them all fails the
/// same way.
pub proof fn lemma_read_fields_stops(fs: Seq<Field>, k: int, b: Seq<u8>)
    requires
        0 <= k <= fs.len(),
        read_fields(fs.take(k), b) is Err,
    ensures
        read_fields(fs, b) == read_fields(fs.take(k), b),
    decreases fs.len(),
{
    if k < fs.len() {
        assert(fs.drop_last().take(k) =~= fs.take(k));
        lemma_read_fields_stops(fs.drop_last(), k, b);
    } else {
        assert(fs.take(k) =~= fs);
    }
}

/// A tagged value.
fn get_value(r: &mut Reader) -> (res: Result<Value, WireError>)
    ensures
        final(r).input() == old(r).input(),
        match read_value(old(r).rest()) {
            Ok((it, n)) => res matches Ok(v) && value_item(v) == it && final(r).position() == old(r).position() + n,
            Err(e) => res == Err::<Value, WireError>(e),
        },
{
    proof { use_type_invariant(&*r); }
    let ghost b = r.rest();
    let ghost r0 = *r;
    let t = match r.u8() {
        Ok(t) => t,
        Err(e) => return Err(e),
    };
    proof {
        r0.lemma_rest_after(r, 1);
        if b.len() >= 9 {
            assert(b.skip(1).take(8) =~= b.subrange(1, 9));
        }
    }
    if t == V_NIL {
        Ok(Value::Nil)
    } else if t == V_BOOL {
        match r.u8() {
            Ok(x) => Ok(Value::Bool(x != 0)),
            Err(e) => Err(e),
        }
    } else if t == V_NUM {
        match r.f64_bits() {
            Ok(n) => Ok(Value::Num(n)),
            Err(e) => Err(e),
        }
    } else if t == V_STR {
        match r.str() {
            Ok(s) => Ok(Value::Str(s)),
            Err(e) => Err(e),
        }
    } else {
        Err(WireError::UnknownTag { what: "value", tag: t })
    }
}

/// The comparison a byte stands for.
fn test_of(t: u8) -> (c: Option<Cmp>)
    ensures
        c == test_of_byte(t),
{
    if t == 0 {
        Some(Cmp::Eq)
    } else if t == 1 {
        Some(Cmp::Ne)
    } else if t == 2 {
        Some(Cmp::Lt)
    } else if t == 3 {
        Some(Cmp::Le)
    } else if t == 4 {
        Some(Cmp::Gt)
    } else if t == 5 {
        Some(Cmp::Ge)
    } else {
        None
    }
}

/// One field of the given kind.
fn get_field(r: &mut Reader, f: Field) -> (res: Result<Got, WireError>)
    ensures
        final(r).input() == old(r).input(),
        match read_field(f, old(r).rest()) {
            Ok((it, n)) => res matches Ok(g) && got_item(g) == it && final(r).position() == old(r).position() + n,
            Err(e) => res == Err::<Got, WireError>(e),
        },
{
    match f {
        Field::Reg => match r.reg() {
            Ok(x) => Ok(Got::Reg(x)),
            Err(e) => Err(e),
        },
        Field::Word => match r.u32() {
            Ok(x) => Ok(Got::Word(x)),
            Err(e) => Err(e),
        },
        Field::Test => {
            let t = match r.u8() {
                Ok(t) => t,
                Err(e) => return Err(e),
            };
            match test_of(t) {
                Some(c) => Ok(Got::Test(c)),
                None => Err(WireError::UnknownTag { what: "comparison", tag: t }),
            }
        },
        Field::Value => match get_value(r) {
            Ok(v) => Ok(Got::Val(v)),
            Err(e) => Err(e),
        },
        Field::Text => match r.str() {
            Ok(s) => Ok(Got::Text(s)),
            Err(e) => Err(e),
        },
    }
}

/// Fields in order, stopping at the first that fails.
fn get_fields(r: &mut Reader, fs: &[Field]) -> (res: Result<Vec<Got>, WireError>)
    ensures
        final(r).input() == old(r).input(),
        match read_fields(fs@, old(r).rest()) {
            Ok((items, n)) => res matches Ok(g) && got_items(g@) == items && final(r).position() == old(r).position() + n,
            Err(e) => res == Err::<Vec<Got>, WireError>(e),
        },
{
    proof { use_type_invariant(&*r); }
    let ghost b = r.rest();
    let ghost r0 = *r;
    let mut out: Vec<Got> = Vec::new();
    let mut i: usize = 0;
    proof {
        assert(fs@.take(0) =~= Seq::<Field>::empty());
        assert(got_items(out@) =~= Seq::<Item>::empty());
    }
    while i < fs.len()
        invariant
            i <= fs@.len(),
            r0 == *old(r),
            r.input() == r0.input(),
            b == r0.rest(),
            r0.position() <= r.position() <= r0.input().len(),
            read_fields(fs@.take(i as int), b) == Ok::<(Seq<Item>, nat), WireError>(
                (got_items(out@), (r.position() - r0.position()) as nat),
            ),
        decreases fs@.len() - i,
    {
        proof { use_type_invariant(&*r); }
        let ghost ri = *r;
        let ghost n = (r.position() - r0.position()) as nat;
        let ghost out0 = out@;
        proof {
            r0.lemma_rest_after(&ri, n);
            assert(fs@.take(i + 1).drop_last() =~= fs@.take(i as int));
            assert(fs@.take(i + 1).last() == fs@[i as int]);
        }
        match get_field(r, fs[i]) {
            Ok(g) => {
                out.push(g);
                proof {
                    assert(out@.drop_last() =~= out0);
                    assert(got_items(out@) =~= got_items(out0).push(got_item(g)));
                }
            },
            Err(e) => {
                proof {
                    lemma_read_fields_stops(fs@, i + 1, b);
                }
                return Err(e);
            },
        }
        i = i + 1;
    }
    proof {
        assert(fs@.take(fs@.len() as int) =~= fs@);
    }
    Ok(out)
}


// ---------------------------------------------------------------------------
// Instructions
// ---------------------------------------------------------------------------

/// A count or target as the `u32` the format holds it in.
pub open spec fn word_of(t: usize) -> u32 {
    t as u32
}

fn to_word(t: usize) -> (w: u32)
    ensures
        w == word_of(t),
{
    t as u32
}

fn widen(w: u32) -> (t: usize)
    ensures
        t == w as usize,
        word_of(t) == w,
{
    w as usize
}

/// The tag an instruction is written with.
pub open spec fn tag_of<X>(op: Op<X>) -> u8 {
    match op {
        Op::LoadK { .. } => TAG_LOADK,
        Op::Move { .. } => TAG_MOVE,
        Op::Add { .. } => TAG_ADD,
        Op::Sub { .. } => TAG_SUB,
        Op::Mul { .. } => TAG_MUL,
        Op::Div { .. } => TAG_DIV,
        Op::Rem { .. } => TAG_REM,
        Op::Pow { .. } => TAG_POW,
        Op::Neg { .. } => TAG_NEG,
        Op::Compare { .. } => TAG_COMPARE,
        Op::Not { .. } => TAG_NOT,
        Op::BitNot { .. } => TAG_BITNOT,
        Op::And { .. } => TAG_AND,
        Op::Or { .. } => TAG_OR,
        Op::Xor { .. } => TAG_XOR,
        Op::Shl { .. } => TAG_SHL,
        Op::Shr { .. } => TAG_SHR,
        Op::LoadGlobal { .. } => TAG_LOADGLOBAL,
        Op::StoreGlobal { .. } => TAG_STOREGLOBAL,
        Op::Jump(..) => TAG_JUMP,
        Op::JumpIfFalse { .. } => TAG_JUMPIFFALSE,
        Op::JumpIfTrue { .. } => TAG_JUMPIFTRUE,
        Op::Print { .. } => TAG_PRINT,
        Op::Halt => TAG_HALT,
        Op::Await { .. } => TAG_AWAIT,
        Op::NewArray { .. } => TAG_NEWARRAY,
        Op::Index { .. } => TAG_INDEX,
        Op::SetIndex { .. } => TAG_SETINDEX,
        Op::Len { .. } => TAG_LEN,
        Op::Call { .. } => TAG_CALL,
        Op::Return { .. } => TAG_RETURN,
        Op::ReturnUnit => TAG_RETURNUNIT,
        Op::Ext(..) => TAG_EXT,
    }
}

/// The fields an instruction is written with, in order. An extension's
/// payload is its own and has none here.
pub open spec fn items_of<X>(op: Op<X>) -> Seq<Item> {
    match op {
        Op::LoadK { dst, value } => seq![Item::Reg(dst), value_item(value)],
        Op::Move { dst, src } => seq![Item::Reg(dst), Item::Reg(src)],
        Op::Add { dst, a, b } => seq![Item::Reg(dst), Item::Reg(a), Item::Reg(b)],
        Op::Sub { dst, a, b } => seq![Item::Reg(dst), Item::Reg(a), Item::Reg(b)],
        Op::Mul { dst, a, b } => seq![Item::Reg(dst), Item::Reg(a), Item::Reg(b)],
        Op::Div { dst, a, b } => seq![Item::Reg(dst), Item::Reg(a), Item::Reg(b)],
        Op::Rem { dst, a, b } => seq![Item::Reg(dst), Item::Reg(a), Item::Reg(b)],
        Op::Pow { dst, a, b } => seq![Item::Reg(dst), Item::Reg(a), Item::Reg(b)],
        Op::Neg { dst, a } => seq![Item::Reg(dst), Item::Reg(a)],
        Op::Compare { dst, cmp, a, b } => seq![Item::Test(cmp), Item::Reg(dst), Item::Reg(a), Item::Reg(b)],
        Op::Not { dst, a } => seq![Item::Reg(dst), Item::Reg(a)],
        Op::BitNot { dst, a } => seq![Item::Reg(dst), Item::Reg(a)],
        Op::And { dst, a, b } => seq![Item::Reg(dst), Item::Reg(a), Item::Reg(b)],
        Op::Or { dst, a, b } => seq![Item::Reg(dst), Item::Reg(a), Item::Reg(b)],
        Op::Xor { dst, a, b } => seq![Item::Reg(dst), Item::Reg(a), Item::Reg(b)],
        Op::Shl { dst, a, b } => seq![Item::Reg(dst), Item::Reg(a), Item::Reg(b)],
        Op::Shr { dst, a, b } => seq![Item::Reg(dst), Item::Reg(a), Item::Reg(b)],
        Op::LoadGlobal { dst, slot } => seq![Item::Reg(dst), Item::Word(slot)],
        Op::StoreGlobal { slot, src } => seq![Item::Word(slot), Item::Reg(src)],
        Op::Jump(t) => seq![Item::Word(word_of(t))],
        Op::JumpIfFalse { src, target } => seq![Item::Reg(src), Item::Word(word_of(target))],
        Op::JumpIfTrue { src, target } => seq![Item::Reg(src), Item::Word(word_of(target))],
        Op::Print { src } => seq![Item::Reg(src)],
        Op::Halt => Seq::empty(),
        Op::Await { dst, src } => seq![Item::Reg(dst), Item::Reg(src)],
        Op::NewArray { dst, base, len } => seq![Item::Reg(dst), Item::Reg(base), Item::Word(word_of(len))],
        Op::Index { dst, seq: s, idx } => seq![Item::Reg(dst), Item::Reg(s), Item::Reg(idx)],
        Op::SetIndex { seq: s, idx, src } => seq![Item::Reg(s), Item::Reg(idx), Item::Reg(src)],
        Op::Len { dst, src } => seq![Item::Reg(dst), Item::Reg(src)],
        Op::Call { dst, base, argc, key, shown } => seq![
            Item::Reg(dst),
            Item::Reg(base),
            Item::Word(word_of(argc)),
            Item::Text(key@),
            Item::Text(shown@),
        ],
        Op::Return { src } => seq![Item::Reg(src)],
        Op::ReturnUnit => Seq::empty(),
        Op::Ext(..) => Seq::empty(),
    }
}

/// What an instruction other than an extension is written as.
pub open spec fn op_bytes<X>(op: Op<X>) -> Seq<u8> {
    seq![tag_of(op)] + items_bytes(items_of(op))
}

/// Reading one instruction: its tag, its fields and how many bytes it took;
/// `None` where the tag is the extension's, whose payload only the
/// extension can read.
pub open spec fn decode_op(b: Seq<u8>) -> Option<Result<(u8, Seq<Item>, nat), WireError>> {
    if b.len() < 1 {
        Some(Err(WireError::Truncated))
    } else if b[0] == TAG_EXT {
        None
    } else {
        match layout(b[0]) {
            None => Some(Err(WireError::UnknownOpcode(b[0]))),
            Some(fs) => match read_fields(fs, b.skip(1)) {
                Ok((items, n)) => Some(Ok((b[0], items, n + 1))),
                Err(e) => Some(Err(e)),
            },
        }
    }
}

/// The byte a comparison is written as.
fn cmp_tag(c: Cmp) -> (t: u8)
    ensures
        t == test_byte(c),
{
    match c {
        Cmp::Eq => 0,
        Cmp::Ne => 1,
        Cmp::Lt => 2,
        Cmp::Le => 3,
        Cmp::Gt => 4,
        Cmp::Ge => 5,
    }
}

/// A tagged value.
fn put_value(out: &mut Vec<u8>, v: &Value)
    ensures
        final(out)@ == old(out)@ + item_bytes(value_item(*v)),
{
    match v {
        Value::Nil => {
            out.push(V_NIL);
        },
        Value::Bool(b) => {
            out.push(V_BOOL);
            out.push(if *b { 1u8 } else { 0u8 });
        },
        Value::Num(n) => {
            out.push(V_NUM);
            put_f64_bits(out, *n);
        },
        Value::Str(s) => {
            out.push(V_STR);
            put_str(out, s.as_str());
        },
    }
    proof {
        assert(final(out)@ =~= old(out)@ + item_bytes(value_item(*v)));
    }
}

/// One field.
fn put_got(out: &mut Vec<u8>, g: &Got)
    ensures
        final(out)@ == old(out)@ + item_bytes(got_item(*g)),
{
    match g {
        Got::Reg(r) => put_u16(out, *r),
        Got::Word(w) => put_u32(out, *w),
        Got::Test(c) => {
            out.push(cmp_tag(*c));
            proof {
                assert(final(out)@ =~= old(out)@ + item_bytes(got_item(*g)));
            }
        },
        Got::Val(v) => put_value(out, v),
        Got::Text(s) => put_str(out, s.as_str()),
    }
}

/// Fields, one after another.
fn put_gots(out: &mut Vec<u8>, g: &Vec<Got>)
    ensures
        final(out)@ == old(out)@ + items_bytes(got_items(g@)),
{
    let mut i: usize = 0;
    proof {
        assert(got_items(g@.take(0)) =~= Seq::<Item>::empty());
        assert(out@ =~= old(out)@ + items_bytes(got_items(g@.take(0))));
    }
    while i < g.len()
        invariant
            i <= g@.len(),
            out@ == old(out)@ + items_bytes(got_items(g@.take(i as int))),
        decreases g@.len() - i,
    {
        put_got(out, &g[i]);
        proof {
            let t = got_items(g@.take(i + 1));
            assert(t.drop_last() =~= got_items(g@.take(i as int)));
            assert(t.last() == got_item(g@[i as int]));
            assert(out@ =~= old(out)@ + items_bytes(t));
        }
        i = i + 1;
    }
    proof {
        assert(g@.take(g@.len() as int) =~= g@);
    }
}

/// An instruction's tag and fields, ready to write.
fn op_fields<X>(op: &Op<X>) -> (r: (u8, Vec<Got>))
    requires
        !(op is Ext),
    ensures
        r.0 == tag_of(*op),
        got_items(r.1@) == items_of(*op),
{
    let r = match op {
        Op::LoadK { dst, value } => (TAG_LOADK, vec![Got::Reg(*dst), Got::Val(value.clone_value())]),
        Op::Move { dst, src } => (TAG_MOVE, vec![Got::Reg(*dst), Got::Reg(*src)]),
        Op::Add { dst, a, b } => (TAG_ADD, vec![Got::Reg(*dst), Got::Reg(*a), Got::Reg(*b)]),
        Op::Sub { dst, a, b } => (TAG_SUB, vec![Got::Reg(*dst), Got::Reg(*a), Got::Reg(*b)]),
        Op::Mul { dst, a, b } => (TAG_MUL, vec![Got::Reg(*dst), Got::Reg(*a), Got::Reg(*b)]),
        Op::Div { dst, a, b } => (TAG_DIV, vec![Got::Reg(*dst), Got::Reg(*a), Got::Reg(*b)]),
        Op::Rem { dst, a, b } => (TAG_REM, vec![Got::Reg(*dst), Got::Reg(*a), Got::Reg(*b)]),
        Op::Pow { dst, a, b } => (TAG_POW, vec![Got::Reg(*dst), Got::Reg(*a), Got::Reg(*b)]),
        Op::Neg { dst, a } => (TAG_NEG, vec![Got::Reg(*dst), Got::Reg(*a)]),
        Op::Compare { dst, cmp, a, b } => (
            TAG_COMPARE,
            vec![Got::Test(*cmp), Got::Reg(*dst), Got::Reg(*a), Got::Reg(*b)],
        ),
        Op::Not { dst, a } => (TAG_NOT, vec![Got::Reg(*dst), Got::Reg(*a)]),
        Op::BitNot { dst, a } => (TAG_BITNOT, vec![Got::Reg(*dst), Got::Reg(*a)]),
        Op::And { dst, a, b } => (TAG_AND, vec![Got::Reg(*dst), Got::Reg(*a), Got::Reg(*b)]),
        Op::Or { dst, a, b } => (TAG_OR, vec![Got::Reg(*dst), Got::Reg(*a), Got::Reg(*b)]),
        Op::Xor { dst, a, b } => (TAG_XOR, vec![Got::Reg(*dst), Got::Reg(*a), Got::Reg(*b)]),
        Op::Shl { dst, a, b } => (TAG_SHL, vec![Got::Reg(*dst), Got::Reg(*a), Got::Reg(*b)]),
        Op::Shr { dst, a, b } => (TAG_SHR, vec![Got::Reg(*dst), Got::Reg(*a), Got::Reg(*b)]),
        Op::LoadGlobal { dst, slot } => (TAG_LOADGLOBAL, vec![Got::Reg(*dst), Got::Word(*slot)]),
        Op::StoreGlobal { slot, src } => (TAG_STOREGLOBAL, vec![Got::Word(*slot), Got::Reg(*src)]),
        Op::Jump(t) => (TAG_JUMP, vec![Got::Word(to_word(*t))]),
        Op::JumpIfFalse { src, target } => (TAG_JUMPIFFALSE, vec![Got::Reg(*src), Got::Word(to_word(*target))]),
        Op::JumpIfTrue { src, target } => (TAG_JUMPIFTRUE, vec![Got::Reg(*src), Got::Word(to_word(*target))]),
        Op::Print { src } => (TAG_PRINT, vec![Got::Reg(*src)]),
        Op::Halt => (TAG_HALT, Vec::new()),
        Op::Await { dst, src } => (TAG_AWAIT, vec![Got::Reg(*dst), Got::Reg(*src)]),
        Op::NewArray { dst, base, len } => (
            TAG_NEWARRAY,
            vec![Got::Reg(*dst), Got::Reg(*base), Got::Word(to_word(*len))],
        ),
        Op::Index { dst, seq: s, idx } => (TAG_INDEX, vec![Got::Reg(*dst), Got::Reg(*s), Got::Reg(*idx)]),
        Op::SetIndex { seq: s, idx, src } => (TAG_SETINDEX, vec![Got::Reg(*s), Got::Reg(*idx), Got::Reg(*src)]),
        Op::Len { dst, src } => (TAG_LEN, vec![Got::Reg(*dst), Got::Reg(*src)]),
        Op::Call { dst, base, argc, key, shown } => (
            TAG_CALL,
            vec![
                Got::Reg(*dst),
                Got::Reg(*base),
                Got::Word(to_word(*argc)),
                Got::Text(key.clone()),
                Got::Text(shown.clone()),
            ],
        ),
        Op::Return { src } => (TAG_RETURN, vec![Got::Reg(*src)]),
        Op::ReturnUnit => (TAG_RETURNUNIT, Vec::new()),
        Op::Ext(..) => (TAG_EXT, Vec::new()),
    };
    proof {
        assert(got_items(r.1@) =~= items_of(*op));
    }
    r
}


/// The last field, which must be a register.
fn pop_reg(g: &mut Vec<Got>) -> (r: u16)
    requires
        old(g)@.len() > 0,
        got_item(old(g)@.last()) is Reg,
    ensures
        final(g)@ == old(g)@.drop_last(),
        got_item(old(g)@.last()) == Item::Reg(r),
{
    match g.pop() {
        Some(Got::Reg(r)) => r,
        _ => 0,
    }
}

/// The last field, which must be a word.
fn pop_word(g: &mut Vec<Got>) -> (w: u32)
    requires
        old(g)@.len() > 0,
        got_item(old(g)@.last()) is Word,
    ensures
        final(g)@ == old(g)@.drop_last(),
        got_item(old(g)@.last()) == Item::Word(w),
{
    match g.pop() {
        Some(Got::Word(w)) => w,
        _ => 0,
    }
}

/// The last field, which must be a comparison.
fn pop_test(g: &mut Vec<Got>) -> (c: Cmp)
    requires
        old(g)@.len() > 0,
        got_item(old(g)@.last()) is Test,
    ensures
        final(g)@ == old(g)@.drop_last(),
        got_item(old(g)@.last()) == Item::Test(c),
{
    match g.pop() {
        Some(Got::Test(c)) => c,
        _ => Cmp::Eq,
    }
}

/// The last field, which must be a value.
fn pop_value(g: &mut Vec<Got>) -> (v: Value)
    requires
        old(g)@.len() > 0,
        fits(Field::Value, got_item(old(g)@.last())),
    ensures
        final(g)@ == old(g)@.drop_last(),
        got_item(old(g)@.last()) == value_item(v),
{
    match g.pop() {
        Some(Got::Val(v)) => v,
        _ => Value::Nil,
    }
}

/// The last field, which must be text.
fn pop_text(g: &mut Vec<Got>) -> (s: String)
    requires
        old(g)@.len() > 0,
        got_item(old(g)@.last()) is Text,
    ensures
        final(g)@ == old(g)@.drop_last(),
        got_item(old(g)@.last()) == Item::Text(s@),
{
    match g.pop() {
        Some(Got::Text(s)) => s,
        _ => String::new(),
    }
}

/// Whether items fit the fields one for one.
pub open spec fn fit_all(fs: Seq<Field>, items: Seq<Item>) -> bool {
    &&& fs.len() == items.len()
    &&& forall|i: int| 0 <= i < fs.len() ==> fits(#[trigger] fs[i], items[i])
}

/// Three registers, the last fields of `g`.
fn pop_three(g: &mut Vec<Got>) -> (r: (u16, u16, u16))
    requires
        old(g)@.len() == 3,
        fit_all(seq![Field::Reg, Field::Reg, Field::Reg], got_items(old(g)@)),
    ensures
        got_items(old(g)@) == seq![Item::Reg(r.0), Item::Reg(r.1), Item::Reg(r.2)],
{
    let ghost g0 = g@;
    assert(fits(Field::Reg, got_items(g0)[2]));
    let c = pop_reg(g);
    assert(fits(Field::Reg, got_items(g0)[1]));
    let b = pop_reg(g);
    assert(fits(Field::Reg, got_items(g0)[0]));
    let a = pop_reg(g);
    proof {
        assert(got_items(g0) =~= seq![Item::Reg(a), Item::Reg(b), Item::Reg(c)]);
    }
    (a, b, c)
}

/// Two registers, the last fields of `g`.
fn pop_two(g: &mut Vec<Got>) -> (r: (u16, u16))
    requires
        old(g)@.len() == 2,
        fit_all(seq![Field::Reg, Field::Reg], got_items(old(g)@)),
    ensures
        got_items(old(g)@) == seq![Item::Reg(r.0), Item::Reg(r.1)],
{
    let ghost g0 = g@;
    assert(fits(Field::Reg, got_items(g0)[1]));
    let b = pop_reg(g);
    assert(fits(Field::Reg, got_items(g0)[0]));
    let a = pop_reg(g);
    proof {
        assert(got_items(g0) =~= seq![Item::Reg(a), Item::Reg(b)]);
    }
    (a, b)
}

/// The instruction a tag and its fields describe.
fn build_op<X>(tag: u8, g: Vec<Got>) -> (op: Op<X>)
    requires
        tag != TAG_EXT,
        layout(tag) is Some,
        fit_all(layout(tag)->0, got_items(g@)),
    ensures
        !(op is Ext),
        words_fit(op),
        tag_of(op) == tag,
        items_of(op) == got_items(g@),
{
    let ghost g0 = g@;
    let mut g = g;
    if tag == TAG_LOADK {
        assert(fits(Field::Value, got_items(g0)[1]));
        let value = pop_value(&mut g);
        assert(fits(Field::Reg, got_items(g0)[0]));
        let dst = pop_reg(&mut g);
        proof {
            assert(got_items(g0) =~= seq![Item::Reg(dst), value_item(value)]);
        }
        Op::LoadK { dst, value }
    } else if tag == TAG_MOVE || tag == TAG_NEG || tag == TAG_NOT || tag == TAG_BITNOT || tag == TAG_AWAIT
        || tag == TAG_LEN {
        let (a, b) = pop_two(&mut g);
        if tag == TAG_MOVE {
            Op::Move { dst: a, src: b }
        } else if tag == TAG_NEG {
            Op::Neg { dst: a, a: b }
        } else if tag == TAG_NOT {
            Op::Not { dst: a, a: b }
        } else if tag == TAG_BITNOT {
            Op::BitNot { dst: a, a: b }
        } else if tag == TAG_AWAIT {
            Op::Await { dst: a, src: b }
        } else {
            Op::Len { dst: a, src: b }
        }
    } else if (TAG_ADD <= tag && tag <= TAG_POW) || (TAG_AND <= tag && tag <= TAG_SHR) || tag == TAG_INDEX
        || tag == TAG_SETINDEX {
        let (x, y, z) = pop_three(&mut g);
        if tag == TAG_ADD {
            Op::Add { dst: x, a: y, b: z }
        } else if tag == TAG_SUB {
            Op::Sub { dst: x, a: y, b: z }
        } else if tag == TAG_MUL {
            Op::Mul { dst: x, a: y, b: z }
        } else if tag == TAG_DIV {
            Op::Div { dst: x, a: y, b: z }
        } else if tag == TAG_REM {
            Op::Rem { dst: x, a: y, b: z }
        } else if tag == TAG_POW {
            Op::Pow { dst: x, a: y, b: z }
        } else if tag == TAG_AND {
            Op::And { dst: x, a: y, b: z }
        } else if tag == TAG_OR {
            Op::Or { dst: x, a: y, b: z }
        } else if tag == TAG_XOR {
            Op::Xor { dst: x, a: y, b: z }
        } else if tag == TAG_SHL {
            Op::Shl { dst: x, a: y, b: z }
        } else if tag == TAG_SHR {
            Op::Shr { dst: x, a: y, b: z }
        } else if tag == TAG_INDEX {
            Op::Index { dst: x, seq: y, idx: z }
        } else {
            Op::SetIndex { seq: x, idx: y, src: z }
        }
    } else if tag == TAG_COMPARE {
        assert(fits(Field::Reg, got_items(g0)[3]));
        let b = pop_reg(&mut g);
        assert(fits(Field::Reg, got_items(g0)[2]));
        let a = pop_reg(&mut g);
        assert(fits(Field::Reg, got_items(g0)[1]));
        let dst = pop_reg(&mut g);
        assert(fits(Field::Test, got_items(g0)[0]));
        let c = pop_test(&mut g);
        proof {
            assert(got_items(g0) =~= seq![Item::Test(c), Item::Reg(dst), Item::Reg(a), Item::Reg(b)]);
        }
        Op::Compare { dst, cmp: c, a, b }
    } else if tag == TAG_LOADGLOBAL || tag == TAG_JUMPIFFALSE || tag == TAG_JUMPIFTRUE {
        assert(fits(Field::Word, got_items(g0)[1]));
        let w = pop_word(&mut g);
        assert(fits(Field::Reg, got_items(g0)[0]));
        let r = pop_reg(&mut g);
        proof {
            assert(got_items(g0) =~= seq![Item::Reg(r), Item::Word(w)]);
        }
        if tag == TAG_LOADGLOBAL {
            Op::LoadGlobal { dst: r, slot: w }
        } else if tag == TAG_JUMPIFFALSE {
            Op::JumpIfFalse { src: r, target: widen(w) }
        } else {
            Op::JumpIfTrue { src: r, target: widen(w) }
        }
    } else if tag == TAG_STOREGLOBAL {
        assert(fits(Field::Reg, got_items(g0)[1]));
        let r = pop_reg(&mut g);
        assert(fits(layout(tag)->0[0], got_items(g0)[0]));
        assert(fits(Field::Word, got_items(g0)[0]));
        let w = pop_word(&mut g);
        proof {
            assert(got_items(g0) =~= seq![Item::Word(w), Item::Reg(r)]);
        }
        Op::StoreGlobal { slot: w, src: r }
    } else if tag == TAG_JUMP {
        assert(fits(Field::Word, got_items(g0)[0]));
        let w = pop_word(&mut g);
        proof {
            assert(got_items(g0) =~= seq![Item::Word(w)]);
        }
        Op::Jump(widen(w))
    } else if tag == TAG_PRINT || tag == TAG_RETURN {
        assert(fits(Field::Reg, got_items(g0)[0]));
        let r = pop_reg(&mut g);
        proof {
            assert(got_items(g0) =~= seq![Item::Reg(r)]);
        }
        if tag == TAG_PRINT {
            Op::Print { src: r }
        } else {
            Op::Return { src: r }
        }
    } else if tag == TAG_HALT || tag == TAG_RETURNUNIT {
        proof {
            assert(got_items(g0) =~= Seq::<Item>::empty());
        }
        if tag == TAG_HALT {
            Op::Halt
        } else {
            Op::ReturnUnit
        }
    } else if tag == TAG_NEWARRAY {
        assert(fits(Field::Word, got_items(g0)[2]));
        let w = pop_word(&mut g);
        let (dst, base) = pop_two(&mut g);
        proof {
            assert(got_items(g0).drop_last() =~= got_items(g0.drop_last()));
            assert(got_items(g0) =~= seq![Item::Reg(dst), Item::Reg(base), Item::Word(w)]);
        }
        Op::NewArray { dst, base, len: widen(w) }
    } else {
        assert(tag == TAG_CALL);
        assert(fits(Field::Text, got_items(g0)[4]));
        let shown = pop_text(&mut g);
        assert(fits(Field::Text, got_items(g0)[3]));
        let key = pop_text(&mut g);
        assert(fits(Field::Word, got_items(g0)[2]));
        let w = pop_word(&mut g);
        assert(fits(Field::Reg, got_items(g0)[1]));
        let base = pop_reg(&mut g);
        assert(fits(Field::Reg, got_items(g0)[0]));
        let dst = pop_reg(&mut g);
        proof {
            assert(got_items(g0) =~= seq![
                Item::Reg(dst),
                Item::Reg(base),
                Item::Word(w),
                Item::Text(key@),
                Item::Text(shown@),
            ]);
        }
        Op::Call { dst, base, argc: widen(w), key, shown }
    }
}


/// The fields that follow a tag.
fn field_layout(tag: u8) -> (r: Option<Vec<Field>>)
    ensures
        match layout(tag) {
            Some(fs) => r matches Some(v) && v@ == fs,
            None => r is None,
        },
{
    let r = if tag == TAG_LOADK {
        Some(vec![Field::Reg, Field::Value])
    } else if tag == TAG_MOVE || tag == TAG_NEG || tag == TAG_NOT || tag == TAG_BITNOT || tag == TAG_AWAIT
        || tag == TAG_LEN {
        Some(vec![Field::Reg, Field::Reg])
    } else if (TAG_ADD <= tag && tag <= TAG_POW) || (TAG_AND <= tag && tag <= TAG_SHR) || tag == TAG_INDEX
        || tag == TAG_SETINDEX {
        Some(vec![Field::Reg, Field::Reg, Field::Reg])
    } else if tag == TAG_COMPARE {
        Some(vec![Field::Test, Field::Reg, Field::Reg, Field::Reg])
    } else if tag == TAG_LOADGLOBAL || tag == TAG_JUMPIFFALSE || tag == TAG_JUMPIFTRUE {
        Some(vec![Field::Reg, Field::Word])
    } else if tag == TAG_STOREGLOBAL {
        Some(vec![Field::Word, Field::Reg])
    } else if tag == TAG_JUMP {
        Some(vec![Field::Word])
    } else if tag == TAG_PRINT || tag == TAG_RETURN {
        Some(vec![Field::Reg])
    } else if tag == TAG_HALT || tag == TAG_RETURNUNIT {
        Some(Vec::new())
    } else if tag == TAG_NEWARRAY {
        Some(vec![Field::Reg, Field::Reg, Field::Word])
    } else if tag == TAG_CALL {
        Some(vec![Field::Reg, Field::Reg, Field::Word, Field::Text, Field::Text])
    } else {
        None
    };
    proof {
        if r is Some {
            assert(r->0@ =~= layout(tag)->0);
        }
    }
    r
}

/// What reading fields gives back has one item per field, each of its kind.
pub proof fn lemma_read_fields_fit(fs: Seq<Field>, b: Seq<u8>)
    requires
        read_fields(fs, b) is Ok,
    ensures
        fit_all(fs, (read_fields(fs, b)->Ok_0).0),
    decreases fs.len(),
{
    if fs.len() > 0 {
        lemma_read_fields_fit(fs.drop_last(), b);
        let (items, n) = read_fields(fs.drop_last(), b)->Ok_0;
        let (it, m) = read_field(fs.last(), b.skip(n as int))->Ok_0;
        assert(fits(fs.last(), it));
        let all = items.push(it);
        assert forall|i: int| 0 <= i < fs.len() implies fits(#[trigger] fs[i], all[i]) by {
            if i < fs.len() - 1 {
                assert(fs[i] == fs.drop_last()[i]);
            }
        }
    }
}

/// One instruction.
fn get_op<X: Wire>(r: &mut Reader) -> (res: Result<Op<X>, WireError>)
    ensures
        decode_op(old(r).rest()) is Some ==> final(r).input() == old(r).input(),
        match decode_op(old(r).rest()) {
            Some(Ok((t, items, n))) => res matches Ok(op) && !(op is Ext) && words_fit(op) && tag_of(op) == t
                && items_of(op) == items && final(r).position() == old(r).position() + n,
            Some(Err(e)) => res == Err::<Op<X>, WireError>(e),
            None => true,
        },
{
    proof { use_type_invariant(&*r); }
    let ghost r0 = *r;
    let t = match r.u8() {
        Ok(t) => t,
        Err(e) => return Err(e),
    };
    proof {
        r0.lemma_rest_after(r, 1);
    }
    if t == TAG_EXT {
        return match X::decode(r) {
            Ok(x) => Ok(Op::Ext(x)),
            Err(e) => Err(e),
        };
    }
    let fs = match field_layout(t) {
        Some(fs) => fs,
        None => return Err(WireError::UnknownOpcode(t)),
    };
    let g = match get_fields(r, fs.as_slice()) {
        Ok(g) => g,
        Err(e) => return Err(e),
    };
    proof {
        lemma_read_fields_fit(fs@, r0.rest().skip(1));
    }
    Ok(build_op(t, g))
}

/// One instruction. An extension writes its own tag and then whatever it
/// says it is made of.
fn put_op<X: Wire>(out: &mut Vec<u8>, op: &Op<X>)
    ensures
        !(op is Ext) ==> final(out)@ == old(out)@ + op_bytes(*op),
        op is Ext ==> exists|tail: Seq<u8>| final(out)@ == old(out)@.push(TAG_EXT) + tail,
{
    match op {
        Op::Ext(x) => {
            // The extension writes its own bytes, after the tag.
            let mut tail: Vec<u8> = Vec::new();
            x.encode(&mut tail);
            let ghost t = tail@;
            out.push(TAG_EXT);
            out.append(&mut tail);
            proof {
                assert(out@ == old(out)@.push(TAG_EXT) + t);
            }
        },
        _ => {
            let (tag, g) = op_fields(op);
            out.push(tag);
            put_gots(out, &g);
            proof {
                assert(final(out)@ =~= old(out)@ + op_bytes(*op));
            }
        },
    }
}


// ---------------------------------------------------------------------------
// What is written is read back
// ---------------------------------------------------------------------------

/// Text fits the format when its UTF-8 form is shorter than 2^32 bytes.
pub open spec fn text_fits(s: Seq<char>) -> bool {
    encode_utf8(s).len() < 0x1_0000_0000
}

/// An item the format can hold: its text, if any, fits.
pub open spec fn item_fits(it: Item) -> bool {
    match it {
        Item::Str(s) => text_fits(s),
        Item::Text(s) => text_fits(s),
        _ => true,
    }
}

/// An instruction the format can hold: every count and target fits in 32
/// bits, and every text fits.
pub open spec fn op_fits<X>(op: Op<X>) -> bool {
    &&& forall|i: int| 0 <= i < items_of(op).len() ==> item_fits(#[trigger] items_of(op)[i])
    &&& words_fit(op)
}

/// Every count and target of an instruction fits in 32 bits.
pub open spec fn words_fit<X>(op: Op<X>) -> bool {
    match op {
        Op::Jump(t) => t <= u32::MAX,
        Op::JumpIfFalse { target, .. } => target <= u32::MAX,
        Op::JumpIfTrue { target, .. } => target <= u32::MAX,
        Op::NewArray { len, .. } => len <= u32::MAX,
        Op::Call { argc, .. } => argc <= u32::MAX,
        _ => true,
    }
}

/// The same instruction, texts compared by their characters.
pub open spec fn same_op<X>(a: Op<X>, b: Op<X>) -> bool {
    match a {
        Op::LoadK { dst, value } => {
            &&& b is LoadK
            &&& dst == b->LoadK_dst
            &&& value_item(value) == value_item(b->LoadK_value)
        },
        Op::Call { dst, base, argc, key, shown } => {
            &&& b is Call
            &&& dst == b->Call_dst
            &&& base == b->Call_base
            &&& argc == b->Call_argc
            &&& key@ == b->Call_key@
            &&& shown@ == b->Call_shown@
        },
        _ => a == b,
    }
}

proof fn lemma_read_text_back(s: Seq<char>, tail: Seq<u8>)
    requires
        text_fits(s),
    ensures
        read_text(str_bytes(s) + tail) == Ok::<(Seq<char>, nat), WireError>((s, str_bytes(s).len())),
{
    written_values_read_back(0, 0, 0, s, tail);
    let w = str_bytes(s) + tail;
    let n = spec_u32_from_le_bytes(w.take(4)) as int;
    vstd::bytes::lemma_auto_spec_u32_to_from_le_bytes();
    let e = encode_utf8(s);
    let len = (e.len() as usize) as u32;
    assert(w.take(4) =~= spec_u32_to_le_bytes(len));
    assert(len as int == e.len());
    assert(str_bytes(s).len() == 4 + n);
}

proof fn lemma_read_field_back(f: Field, it: Item, tail: Seq<u8>)
    requires
        fits(f, it),
        item_fits(it),
    ensures
        read_field(f, item_bytes(it) + tail) == Ok::<(Item, nat), WireError>((it, item_bytes(it).len())),
{
    vstd::bytes::lemma_auto_spec_u16_to_from_le_bytes();
    vstd::bytes::lemma_auto_spec_u32_to_from_le_bytes();
    vstd::bytes::lemma_auto_spec_u64_to_from_le_bytes();
    let b = item_bytes(it) + tail;
    match it {
        Item::Reg(r) => {
            assert(b.take(2) =~= spec_u16_to_le_bytes(r));
        },
        Item::Word(w) => {
            assert(b.take(4) =~= spec_u32_to_le_bytes(w));
        },
        Item::Test(c) => {},
        Item::Nil => {},
        Item::Bool(x) => {},
        Item::Num(n) => {
            assert(b.subrange(1, 9) =~= spec_u64_to_le_bytes(n));
        },
        Item::Str(t) => {
            assert(b.skip(1) =~= str_bytes(t) + tail);
            lemma_read_text_back(t, tail);
        },
        Item::Text(t) => {
            lemma_read_text_back(t, tail);
        },
    }
}

/// The bytes of fields, read back as those fields, take exactly their length.
pub proof fn lemma_read_fields_back(fs: Seq<Field>, items: Seq<Item>, tail: Seq<u8>)
    requires
        fit_all(fs, items),
        forall|i: int| 0 <= i < items.len() ==> item_fits(#[trigger] items[i]),
    ensures
        read_fields(fs, items_bytes(items) + tail) == Ok::<(Seq<Item>, nat), WireError>(
            (items, items_bytes(items).len()),
        ),
    decreases fs.len(),
{
    if fs.len() > 0 {
        let last = items.last();
        let front = items.drop_last();
        assert(fits(fs[fs.len() - 1], items[items.len() - 1]));
        assert forall|i: int| 0 <= i < fs.drop_last().len() implies fits(#[trigger] fs.drop_last()[i], front[i]) by {
            assert(fits(fs[i], items[i]));
        }
        assert forall|i: int| 0 <= i < front.len() implies item_fits(#[trigger] front[i]) by {
            assert(item_fits(items[i]));
        }
        let rest = item_bytes(last) + tail;
        lemma_read_fields_back(fs.drop_last(), front, rest);
        let b = items_bytes(items) + tail;
        assert(b =~= items_bytes(front) + rest);
        assert(b.skip(items_bytes(front).len() as int) =~= rest);
        assert(item_fits(items[items.len() - 1]));
        lemma_read_field_back(fs.last(), last, tail);
        assert(items =~= front.push(last));
    } else {
        assert(items =~= Seq::<Item>::empty());
    }
}

/// Each instruction's fields are of the kinds its tag lays out.
pub proof fn lemma_layout_of<X>(op: Op<X>)
    requires
        !(op is Ext),
    ensures
        layout(tag_of(op)) is Some,
        fit_all(layout(tag_of(op))->0, items_of(op)),
{
    let fs = layout(tag_of(op))->0;
    let items = items_of(op);
    assert(fs.len() == items.len());
    assert forall|i: int| 0 <= i < fs.len() implies fits(#[trigger] fs[i], items[i]) by {
        match op {
            Op::LoadK { value, .. } => {
                match value {
                    Value::Nil => {},
                    Value::Bool(_) => {},
                    Value::Num(_) => {},
                    Value::Str(_) => {},
                }
            },
            _ => {},
        }
    }
}

/// An instruction's bytes, followed by anything, read back as its tag and
/// fields and take exactly their length.
pub proof fn lemma_op_reads_back<X>(op: Op<X>, tail: Seq<u8>)
    requires
        !(op is Ext),
        op_fits(op),
    ensures
        decode_op(op_bytes(op) + tail) == Some(
            Ok::<(u8, Seq<Item>, nat), WireError>((tag_of(op), items_of(op), op_bytes(op).len())),
        ),
{
    lemma_layout_of(op);
    let b = op_bytes(op) + tail;
    assert(b.skip(1) =~= items_bytes(items_of(op)) + tail);
    lemma_read_fields_back(layout(tag_of(op))->0, items_of(op), tail);
}

/// Two instructions with the same tag and fields, both fitting the format,
/// are the same instruction.
pub proof fn lemma_fields_determine_op<X>(p: Op<X>, q: Op<X>)
    requires
        !(p is Ext),
        !(q is Ext),
        words_fit(p),
        words_fit(q),
        tag_of(p) == tag_of(q),
        items_of(p) == items_of(q),
    ensures
        same_op(p, q),
{
    match p {
        Op::LoadK { .. } => {
            assert(q is LoadK);
            assert(items_of(p)[0] == Item::Reg(p->LoadK_dst));
            assert(items_of(q)[0] == Item::Reg(q->LoadK_dst));
            assert(items_of(p)[1] == value_item(p->LoadK_value));
            assert(items_of(q)[1] == value_item(q->LoadK_value));
        },
        Op::Move { .. } => {
            assert(q is Move);
            assert(items_of(p)[0] == Item::Reg(p->Move_dst));
            assert(items_of(q)[0] == Item::Reg(q->Move_dst));
            assert(items_of(p)[1] == Item::Reg(p->Move_src));
            assert(items_of(q)[1] == Item::Reg(q->Move_src));
        },
        Op::Add { .. } => {
            assert(q is Add);
            assert(items_of(p)[0] == Item::Reg(p->Add_dst));
            assert(items_of(q)[0] == Item::Reg(q->Add_dst));
            assert(items_of(p)[1] == Item::Reg(p->Add_a));
            assert(items_of(q)[1] == Item::Reg(q->Add_a));
            assert(items_of(p)[2] == Item::Reg(p->Add_b));
            assert(items_of(q)[2] == Item::Reg(q->Add_b));
        },
        Op::Sub { .. } => {
            assert(q is Sub);
            assert(items_of(p)[0] == Item::Reg(p->Sub_dst));
            assert(items_of(q)[0] == Item::Reg(q->Sub_dst));
            assert(items_of(p)[1] == Item::Reg(p->Sub_a));
            assert(items_of(q)[1] == Item::Reg(q->Sub_a));
            assert(items_of(p)[2] == Item::Reg(p->Sub_b));
            assert(items_of(q)[2] == Item::Reg(q->Sub_b));
        },
        Op::Mul { .. } => {
            assert(q is Mul);
            assert(items_of(p)[0] == Item::Reg(p->Mul_dst));
            assert(items_of(q)[0] == Item::Reg(q->Mul_dst));
            assert(items_of(p)[1] == Item::Reg(p->Mul_a));
            assert(items_of(q)[1] == Item::Reg(q->Mul_a));
            assert(items_of(p)[2] == Item::Reg(p->Mul_b));
            assert(items_of(q)[2] == Item::Reg(q->Mul_b));
        },
        Op::Div { .. } => {
            assert(q is Div);
            assert(items_of(p)[0] == Item::Reg(p->Div_dst));
            assert(items_of(q)[0] == Item::Reg(q->Div_dst));
            assert(items_of(p)[1] == Item::Reg(p->Div_a));
            assert(items_of(q)[1] == Item::Reg(q->Div_a));
            assert(items_of(p)[2] == Item::Reg(p->Div_b));
            assert(items_of(q)[2] == Item::Reg(q->Div_b));
        },
        Op::Rem { .. } => {
            assert(q is Rem);
            assert(items_of(p)[0] == Item::Reg(p->Rem_dst));
            assert(items_of(q)[0] == Item::Reg(q->Rem_dst));
            assert(items_of(p)[1] == Item::Reg(p->Rem_a));
            assert(items_of(q)[1] == Item::Reg(q->Rem_a));
            assert(items_of(p)[2] == Item::Reg(p->Rem_b));
            assert(items_of(q)[2] == Item::Reg(q->Rem_b));
        },
        Op::Pow { .. } => {
            assert(q is Pow);
            assert(items_of(p)[0] == Item::Reg(p->Pow_dst));
            assert(items_of(q)[0] == Item::Reg(q->Pow_dst));
            assert(items_of(p)[1] == Item::Reg(p->Pow_a));
            assert(items_of(q)[1] == Item::Reg(q->Pow_a));
            assert(items_of(p)[2] == Item::Reg(p->Pow_b));
            assert(items_of(q)[2] == Item::Reg(q->Pow_b));
        },
        Op::Neg { .. } => {
            assert(q is Neg);
            assert(items_of(p)[0] == Item::Reg(p->Neg_dst));
            assert(items_of(q)[0] == Item::Reg(q->Neg_dst));
            assert(items_of(p)[1] == Item::Reg(p->Neg_a));
            assert(items_of(q)[1] == Item::Reg(q->Neg_a));
        },
        Op::Compare { .. } => {
            assert(q is Compare);
            assert(items_of(p)[0] == Item::Test(p->Compare_cmp));
            assert(items_of(q)[0] == Item::Test(q->Compare_cmp));
            assert(items_of(p)[1] == Item::Reg(p->Compare_dst));
            assert(items_of(q)[1] == Item::Reg(q->Compare_dst));
            assert(items_of(p)[2] == Item::Reg(p->Compare_a));
            assert(items_of(q)[2] == Item::Reg(q->Compare_a));
            assert(items_of(p)[3] == Item::Reg(p->Compare_b));
            assert(items_of(q)[3] == Item::Reg(q->Compare_b));
        },
        Op::Not { .. } => {
            assert(q is Not);
            assert(items_of(p)[0] == Item::Reg(p->Not_dst));
            assert(items_of(q)[0] == Item::Reg(q->Not_dst));
            assert(items_of(p)[1] == Item::Reg(p->Not_a));
            assert(items_of(q)[1] == Item::Reg(q->Not_a));
        },
        Op::BitNot { .. } => {
            assert(q is BitNot);
            assert(items_of(p)[0] == Item::Reg(p->BitNot_dst));
            assert(items_of(q)[0] == Item::Reg(q->BitNot_dst));
            assert(items_of(p)[1] == Item::Reg(p->BitNot_a));
            assert(items_of(q)[1] == Item::Reg(q->BitNot_a));
        },
        Op::And { .. } => {
            assert(q is And);
            assert(items_of(p)[0] == Item::Reg(p->And_dst));
            assert(items_of(q)[0] == Item::Reg(q->And_dst));
            assert(items_of(p)[1] == Item::Reg(p->And_a));
            assert(items_of(q)[1] == Item::Reg(q->And_a));
            assert(items_of(p)[2] == Item::Reg(p->And_b));
            assert(items_of(q)[2] == Item::Reg(q->And_b));
        },
        Op::Or { .. } => {
            assert(q is Or);
            assert(items_of(p)[0] == Item::Reg(p->Or_dst));
            assert(items_of(q)[0] == Item::Reg(q->Or_dst));
            assert(items_of(p)[1] == Item::Reg(p->Or_a));
            assert(items_of(q)[1] == Item::Reg(q->Or_a));
            assert(items_of(p)[2] == Item::Reg(p->Or_b));
            assert(items_of(q)[2] == Item::Reg(q->Or_b));
        },
        Op::Xor { .. } => {
            assert(q is Xor);
            assert(items_of(p)[0] == Item::Reg(p->Xor_dst));
            assert(items_of(q)[0] == Item::Reg(q->Xor_dst));
            assert(items_of(p)[1] == Item::Reg(p->Xor_a));
            assert(items_of(q)[1] == Item::Reg(q->Xor_a));
            assert(items_of(p)[2] == Item::Reg(p->Xor_b));
            assert(items_of(q)[2] == Item::Reg(q->Xor_b));
        },
        Op::Shl { .. } => {
            assert(q is Shl);
            assert(items_of(p)[0] == Item::Reg(p->Shl_dst));
            assert(items_of(q)[0] == Item::Reg(q->Shl_dst));
            assert(items_of(p)[1] == Item::Reg(p->Shl_a));
            assert(items_of(q)[1] == Item::Reg(q->Shl_a));
            assert(items_of(p)[2] == Item::Reg(p->Shl_b));
            assert(items_of(q)[2] == Item::Reg(q->Shl_b));
        },
        Op::Shr { .. } => {
            assert(q is Shr);
            assert(items_of(p)[0] == Item::Reg(p->Shr_dst));
            assert(items_of(q)[0] == Item::Reg(q->Shr_dst));
            assert(items_of(p)[1] == Item::Reg(p->Shr_a));
            assert(items_of(q)[1] == Item::Reg(q->Shr_a));
            assert(items_of(p)[2] == Item::Reg(p->Shr_b));
            assert(items_of(q)[2] == Item::Reg(q->Shr_b));
        },
        Op::LoadGlobal { .. } => {
            assert(q is LoadGlobal);
            assert(items_of(p)[0] == Item::Reg(p->LoadGlobal_dst));
            assert(items_of(q)[0] == Item::Reg(q->LoadGlobal_dst));
            assert(items_of(p)[1] == Item::Word(p->LoadGlobal_slot));
            assert(items_of(q)[1] == Item::Word(q->LoadGlobal_slot));
        },
        Op::StoreGlobal { .. } => {
            assert(q is StoreGlobal);
            assert(items_of(p)[0] == Item::Word(p->StoreGlobal_slot));
            assert(items_of(q)[0] == Item::Word(q->StoreGlobal_slot));
            assert(items_of(p)[1] == Item::Reg(p->StoreGlobal_src));
            assert(items_of(q)[1] == Item::Reg(q->StoreGlobal_src));
        },
        Op::Jump(..) => {
            assert(q is Jump);
            assert(items_of(p)[0] == Item::Word(word_of(p->Jump_0)));
            assert(items_of(q)[0] == Item::Word(word_of(q->Jump_0)));
            lemma_word_of_injective(p->Jump_0, q->Jump_0);
        },
        Op::JumpIfFalse { .. } => {
            assert(q is JumpIfFalse);
            assert(items_of(p)[0] == Item::Reg(p->JumpIfFalse_src));
            assert(items_of(q)[0] == Item::Reg(q->JumpIfFalse_src));
            assert(items_of(p)[1] == Item::Word(word_of(p->JumpIfFalse_target)));
            assert(items_of(q)[1] == Item::Word(word_of(q->JumpIfFalse_target)));
            lemma_word_of_injective(p->JumpIfFalse_target, q->JumpIfFalse_target);
        },
        Op::JumpIfTrue { .. } => {
            assert(q is JumpIfTrue);
            assert(items_of(p)[0] == Item::Reg(p->JumpIfTrue_src));
            assert(items_of(q)[0] == Item::Reg(q->JumpIfTrue_src));
            assert(items_of(p)[1] == Item::Word(word_of(p->JumpIfTrue_target)));
            assert(items_of(q)[1] == Item::Word(word_of(q->JumpIfTrue_target)));
            lemma_word_of_injective(p->JumpIfTrue_target, q->JumpIfTrue_target);
        },
        Op::Print { .. } => {
            assert(q is Print);
            assert(items_of(p)[0] == Item::Reg(p->Print_src));
            assert(items_of(q)[0] == Item::Reg(q->Print_src));
        },
        Op::Halt => {
            assert(q is Halt);
        },
        Op::Await { .. } => {
            assert(q is Await);
            assert(items_of(p)[0] == Item::Reg(p->Await_dst));
            assert(items_of(q)[0] == Item::Reg(q->Await_dst));
            assert(items_of(p)[1] == Item::Reg(p->Await_src));
            assert(items_of(q)[1] == Item::Reg(q->Await_src));
        },
        Op::NewArray { .. } => {
            assert(q is NewArray);
            assert(items_of(p)[0] == Item::Reg(p->NewArray_dst));
            assert(items_of(q)[0] == Item::Reg(q->NewArray_dst));
            assert(items_of(p)[1] == Item::Reg(p->NewArray_base));
            assert(items_of(q)[1] == Item::Reg(q->NewArray_base));
            assert(items_of(p)[2] == Item::Word(word_of(p->NewArray_len)));
            assert(items_of(q)[2] == Item::Word(word_of(q->NewArray_len)));
            lemma_word_of_injective(p->NewArray_len, q->NewArray_len);
        },
        Op::Index { .. } => {
            assert(q is Index);
            assert(items_of(p)[0] == Item::Reg(p->Index_dst));
            assert(items_of(q)[0] == Item::Reg(q->Index_dst));
            assert(items_of(p)[1] == Item::Reg(p->Index_seq));
            assert(items_of(q)[1] == Item::Reg(q->Index_seq));
            assert(items_of(p)[2] == Item::Reg(p->Index_idx));
            assert(items_of(q)[2] == Item::Reg(q->Index_idx));
        },
        Op::SetIndex { .. } => {
            assert(q is SetIndex);
            assert(items_of(p)[0] == Item::Reg(p->SetIndex_seq));
            assert(items_of(q)[0] == Item::Reg(q->SetIndex_seq));
            assert(items_of(p)[1] == Item::Reg(p->SetIndex_idx));
            assert(items_of(q)[1] == Item::Reg(q->SetIndex_idx));
            assert(items_of(p)[2] == Item::Reg(p->SetIndex_src));
            assert(items_of(q)[2] == Item::Reg(q->SetIndex_src));
        },
        Op::Len { .. } => {
            assert(q is Len);
            assert(items_of(p)[0] == Item::Reg(p->Len_dst));
            assert(items_of(q)[0] == Item::Reg(q->Len_dst));
            assert(items_of(p)[1] == Item::Reg(p->Len_src));
            assert(items_of(q)[1] == Item::Reg(q->Len_src));
        },
        Op::Call { .. } => {
            assert(q is Call);
            assert(items_of(p)[0] == Item::Reg(p->Call_dst));
            assert(items_of(q)[0] == Item::Reg(q->Call_dst));
            assert(items_of(p)[1] == Item::Reg(p->Call_base));
            assert(items_of(q)[1] == Item::Reg(q->Call_base));
            assert(items_of(p)[2] == Item::Word(word_of(p->Call_argc)));
            assert(items_of(q)[2] == Item::Word(word_of(q->Call_argc)));
            lemma_word_of_injective(p->Call_argc, q->Call_argc);
            assert(items_of(p)[3] == Item::Text(p->Call_key@));
            assert(items_of(q)[3] == Item::Text(q->Call_key@));
            assert(items_of(p)[4] == Item::Text(p->Call_shown@));
            assert(items_of(q)[4] == Item::Text(q->Call_shown@));
        },
        Op::Return { .. } => {
            assert(q is Return);
            assert(items_of(p)[0] == Item::Reg(p->Return_src));
            assert(items_of(q)[0] == Item::Reg(q->Return_src));
        },
        Op::ReturnUnit => {
            assert(q is ReturnUnit);
        },
        Op::Ext(..) => {},
    }
}

/// Counts that fit in 32 bits keep their value in the format.
proof fn lemma_word_of_injective(s: usize, t: usize)
    requires
        s <= u32::MAX,
        t <= u32::MAX,
        word_of(s) == word_of(t),
    ensures
        s == t,
{
    assert(s == (s as u32) as usize) by (bit_vector)
        requires
            s <= 0xffff_ffffusize,
    ;
    assert(t == (t as u32) as usize) by (bit_vector)
        requires
            t <= 0xffff_ffffusize,
    ;
}


// ---------------------------------------------------------------------------
// Programs
//
// magic    "NHVM"          4 bytes
// version  u16             the format, not the VM
// frame    u32
// globals  u32
// fns      u32 count, then (name, addr, arity, frame) each, in key order
// code     u32 count, then one tagged instruction each
// ---------------------------------------------------------------------------

/// The four bytes every program starts with: "NHVM".
pub open spec fn magic() -> Seq<u8> {
    seq![0x4eu8, 0x48u8, 0x56u8, 0x4du8]
}

/// What one function record is written as.
pub open spec fn fn_entry_bytes(e: (Seq<char>, FnDef)) -> Seq<u8> {
    str_bytes(e.0) + spec_u32_to_le_bytes(word_of(e.1.addr)) + spec_u32_to_le_bytes(word_of(e.1.arity))
        + spec_u32_to_le_bytes(word_of(e.1.frame))
}

/// Function records, one after another.
pub open spec fn fns_bytes(es: Seq<(Seq<char>, FnDef)>) -> Seq<u8>
    decreases es.len(),
{
    if es.len() == 0 {
        Seq::empty()
    } else {
        fns_bytes(es.drop_last()) + fn_entry_bytes(es.last())
    }
}

/// Instructions, one after another.
pub open spec fn code_bytes<X>(code: Seq<Op<X>>) -> Seq<u8>
    decreases code.len(),
{
    if code.len() == 0 {
        Seq::empty()
    } else {
        code_bytes(code.drop_last()) + op_bytes(code.last())
    }
}

/// A count as the format holds it.
pub open spec fn count_bytes(n: nat) -> Seq<u8> {
    spec_u32_to_le_bytes(word_of(n as usize))
}

/// What a program with no extension instructions is written as.
pub open spec fn program_bytes<X>(p: Program<X>) -> Seq<u8> {
    magic() + spec_u16_to_le_bytes(FORMAT_VERSION) + spec_u32_to_le_bytes(word_of(p.frame))
        + spec_u32_to_le_bytes(word_of(p.globals)) + count_bytes(p.fns.names().len()) + fns_bytes(
        p.fns.listing(),
    ) + count_bytes(p.code@.len()) + code_bytes(p.code@)
}

/// What a stream decodes to: the header's numbers, the function records in
/// the order they came, and each instruction's tag and fields.
pub struct Decoded {
    pub frame: usize,
    pub globals: usize,
    pub fns: Seq<(Seq<char>, FnDef)>,
    pub code: Seq<(u8, Seq<Item>)>,
}

/// Reading one function record.
pub open spec fn read_fn_entry(b: Seq<u8>) -> Result<((Seq<char>, FnDef), nat), WireError> {
    match read_text(b) {
        Err(e) => Err(e),
        Ok((name, n)) => if b.len() < n + 12 {
            Err(WireError::Truncated)
        } else {
            Ok(
                (
                    (
                        name,
                        FnDef {
                            addr: spec_u32_from_le_bytes(b.subrange(n as int, n as int + 4)) as usize,
                            arity: spec_u32_from_le_bytes(b.subrange(n as int + 4, n as int + 8)) as usize,
                            frame: spec_u32_from_le_bytes(b.subrange(n as int + 8, n as int + 12)) as usize,
                        },
                    ),
                    n + 12,
                ),
            )
        },
    }
}

/// Reading `k` function records in a row.
pub open spec fn read_fn_entries(b: Seq<u8>, k: nat) -> Result<(Seq<(Seq<char>, FnDef)>, nat), WireError>
    decreases k,
{
    if k == 0 {
        Ok((Seq::empty(), 0))
    } else {
        match read_fn_entries(b, (k - 1) as nat) {
            Err(e) => Err(e),
            Ok((es, n)) => match read_fn_entry(b.skip(n as int)) {
                Err(e) => Err(e),
                Ok((e, m)) => Ok((es.push(e), n + m)),
            },
        }
    }
}

/// Reading `k` instructions in a row; `None` once an extension's is met.
pub open spec fn read_ops(b: Seq<u8>, k: nat) -> Option<Result<(Seq<(u8, Seq<Item>)>, nat), WireError>>
    decreases k,
{
    if k == 0 {
        Some(Ok((Seq::empty(), 0)))
    } else {
        match read_ops(b, (k - 1) as nat) {
            None => None,
            Some(Err(e)) => Some(Err(e)),
            Some(Ok((ops, n))) => match decode_op(b.skip(n as int)) {
                None => None,
                Some(Err(e)) => Some(Err(e)),
                Some(Ok((t, items, m))) => Some(Ok((ops.push((t, items)), n + m))),
            },
        }
    }
}

/// Decoding a program, checking the header first. Anything after the last
/// instruction is not read. `None` where an extension instruction is met,
/// since only the extension knows how its payload reads.
pub open spec fn decode_program(b: Seq<u8>) -> Option<Result<Decoded, WireError>> {
    if b.len() < 4 {
        Some(Err(WireError::Truncated))
    } else if b.take(4) != magic() {
        Some(Err(WireError::NotBytecode))
    } else if b.len() < 6 {
        Some(Err(WireError::Truncated))
    } else if spec_u16_from_le_bytes(b.subrange(4, 6)) != FORMAT_VERSION {
        Some(Err(WireError::Version { found: spec_u16_from_le_bytes(b.subrange(4, 6)), expected: FORMAT_VERSION }))
    } else if b.len() < 18 {
        Some(Err(WireError::Truncated))
    } else {
        let frame = spec_u32_from_le_bytes(b.subrange(6, 10)) as usize;
        let globals = spec_u32_from_le_bytes(b.subrange(10, 14)) as usize;
        let nf = spec_u32_from_le_bytes(b.subrange(14, 18)) as nat;
        match read_fn_entries(b.skip(18), nf) {
            Err(e) => Some(Err(e)),
            Ok((fs, n)) => {
                let c = b.skip(18 + n as int);
                if c.len() < 4 {
                    Some(Err(WireError::Truncated))
                } else {
                    match read_ops(c.skip(4), spec_u32_from_le_bytes(c.take(4)) as nat) {
                        None => None,
                        Some(Err(e)) => Some(Err(e)),
                        Some(Ok((ops, m))) => Some(Ok(Decoded { frame, globals, fns: fs, code: ops })),
                    }
                }
            },
        }
    }
}

/// The table that inserting records in order leaves: a later record for a
/// key replaces an earlier one.
pub open spec fn table_of(es: Seq<(Seq<char>, FnDef)>) -> Map<Seq<char>, FnDef>
    decreases es.len(),
{
    if es.len() == 0 {
        Map::empty()
    } else {
        table_of(es.drop_last()).insert(es.last().0, es.last().1)
    }
}

/// Whether `q` is what a decoded stream describes.
pub open spec fn describes<X>(d: Decoded, q: Program<X>) -> bool {
    &&& q.fns.wf()
    &&& q.frame == d.frame
    &&& q.globals == d.globals
    &&& q.fns@ == table_of(d.fns)
    &&& q.code@.len() == d.code.len()
    &&& forall|i: int| 0 <= i < d.code.len() ==> !(#[trigger] q.code@[i] is Ext) && words_fit(q.code@[i]) && tag_of(
        q.code@[i],
    ) == d.code[i].0 && items_of(q.code@[i]) == d.code[i].1
}


impl<X: Wire> Program<X> {
    /// Encodes to bytes, header and all. Functions go out in key order, so
    /// the same program always gives the same bytes.
    pub fn to_bytes(&self) -> (out: Vec<u8>)
        ensures
            (forall|i: int| 0 <= i < self.code@.len() ==> !(#[trigger] self.code@[i] is Ext)) ==> out@
                == program_bytes(*self),
    {
        let mut out: Vec<u8> = Vec::new();
        out.push(0x4eu8);
        out.push(0x48u8);
        out.push(0x56u8);
        out.push(0x4du8);
        proof {
            assert(out@ =~= magic());
        }
        put_u16(&mut out, FORMAT_VERSION);
        put_usize(&mut out, self.frame);
        put_usize(&mut out, self.globals);
        let n = self.fns.len();
        put_usize(&mut out, n);
        let ghost head = out@;
        let mut i: usize = 0;
        proof {
            assert(self.fns.listing().take(0) =~= Seq::<(Seq<char>, FnDef)>::empty());
            assert(out@ =~= head + fns_bytes(self.fns.listing().take(0)));
        }
        while i < n
            invariant
                n == self.fns.names().len(),
                i <= n,
                out@ == head + fns_bytes(self.fns.listing().take(i as int)),
            decreases n - i,
        {
            let (name, f) = self.fns.entry(i);
            let ghost before = out@;
            put_str(&mut out, name.as_str());
            put_usize(&mut out, f.addr);
            put_usize(&mut out, f.arity);
            put_usize(&mut out, f.frame);
            proof {
                let l = self.fns.listing().take(i + 1);
                assert(l.drop_last() =~= self.fns.listing().take(i as int));
                assert(l.last() == (self.fns.names()[i as int], self.fns.defs()[i as int]));
                assert(out@ =~= before + fn_entry_bytes(l.last()));
                assert(out@ =~= head + fns_bytes(l));
            }
            i = i + 1;
        }
        proof {
            assert(self.fns.listing().take(n as int) =~= self.fns.listing());
        }
        put_usize(&mut out, self.code.len());
        let ghost head2 = out@;
        let mut i: usize = 0;
        proof {
            assert(self.code@.take(0) =~= Seq::<Op<X>>::empty());
            assert(out@ =~= head2 + code_bytes(self.code@.take(0)));
        }
        while i < self.code.len()
            invariant
                i <= self.code@.len(),
                (forall|j: int| 0 <= j < i ==> !(#[trigger] self.code@[j] is Ext)) ==> out@ == head2 + code_bytes(
                    self.code@.take(i as int),
                ),
            decreases self.code@.len() - i,
        {
            let ghost before = out@;
            put_op(&mut out, &self.code[i]);
            proof {
                let c = self.code@.take(i + 1);
                assert(c.drop_last() =~= self.code@.take(i as int));
                assert(c.last() == self.code@[i as int]);
                if forall|j: int| 0 <= j < i + 1 ==> !(#[trigger] self.code@[j] is Ext) {
                    assert(!(self.code@[i as int] is Ext));
                    assert(out@ =~= head2 + code_bytes(c));
                }
            }
            i = i + 1;
        }
        proof {
            assert(self.code@.take(self.code@.len() as int) =~= self.code@);
            if forall|j: int| 0 <= j < self.code@.len() ==> !(#[trigger] self.code@[j] is Ext) {
                assert(out@ =~= program_bytes(*self));
            }
        }
        out
    }

    /// Decodes, checking the header first. Counts read from the input are
    /// not trusted as capacities: a short stream claiming many records fails
    /// as truncated instead of allocating for them.
    pub fn from_bytes(bytes: &[u8]) -> (res: Result<Program<X>, WireError>)
        ensures
            match decode_program(bytes@) {
                Some(Ok(d)) => res matches Ok(q) && describes(d, q),
                Some(Err(e)) => res == Err::<Program<X>, WireError>(e),
                None => true,
            },
    {
        let mut r = Reader::new(bytes);
        let ghost b = bytes@;
        proof {
            assert(r.rest() =~= b);
        }
        let m = match r.take(4) {
            Ok(m) => m,
            Err(e) => return Err(e),
        };
        if !(m[0] == 0x4eu8 && m[1] == 0x48u8 && m[2] == 0x56u8 && m[3] == 0x4du8) {
            proof {
                assert(b.take(4) != magic()) by {
                    if b.take(4) == magic() {
                        assert(m@ == b.take(4));
                        assert(m@[0] == magic()[0]);
                        assert(m@[1] == magic()[1]);
                        assert(m@[2] == magic()[2]);
                        assert(m@[3] == magic()[3]);
                    }
                }
            }
            return Err(WireError::NotBytecode);
        }
        proof {
            assert(b.take(4) =~= magic());
            assert(r.rest() =~= b.skip(4));
        }
        let version = match r.u16() {
            Ok(v) => v,
            Err(e) => return Err(e),
        };
        proof {
            assert(b.skip(4).take(2) =~= b.subrange(4, 6));
        }
        if version != FORMAT_VERSION {
            return Err(WireError::Version { found: version, expected: FORMAT_VERSION });
        }
        proof {
            assert(r.rest() =~= b.skip(6));
        }
        let frame = match r.usize() {
            Ok(v) => v,
            Err(e) => return Err(e),
        };
        proof {
            assert(b.skip(6).take(4) =~= b.subrange(6, 10));
            assert(r.rest() =~= b.skip(10));
        }
        let globals = match r.usize() {
            Ok(v) => v,
            Err(e) => return Err(e),
        };
        proof {
            assert(b.skip(10).take(4) =~= b.subrange(10, 14));
            assert(r.rest() =~= b.skip(14));
        }
        let n = match r.usize() {
            Ok(v) => v,
            Err(e) => return Err(e),
        };
        proof {
            assert(b.skip(14).take(4) =~= b.subrange(14, 18));
            assert(r.rest() =~= b.skip(18));
        }
        let ghost fb = b.skip(18);
        let mut fns = FnTable::new();
        let mut i: usize = 0;
        let ghost mut es: Seq<(Seq<char>, FnDef)> = Seq::empty();
        proof {
            assert(table_of(es) =~= fns@);
        }
        while i < n
            invariant
                b == bytes@,
                r.input() == b,
                18 <= r.position() <= b.len(),
                i <= n,
                b.len() >= 18,
                b.take(4) == magic(),
                spec_u16_from_le_bytes(b.subrange(4, 6)) == FORMAT_VERSION,
                frame == spec_u32_from_le_bytes(b.subrange(6, 10)) as usize,
                globals == spec_u32_from_le_bytes(b.subrange(10, 14)) as usize,
                n == spec_u32_from_le_bytes(b.subrange(14, 18)) as usize,
                fns.wf(),
                read_fn_entries(fb, i as nat) == Ok::<(Seq<(Seq<char>, FnDef)>, nat), WireError>(
                    (es, (r.position() - 18) as nat),
                ),
                fns@ == table_of(es),
                fb == b.skip(18),
            decreases n - i,
        {
            proof { use_type_invariant(&r); }
            let ghost r0 = r;
            let ghost k = (r.position() - 18) as nat;
            let ghost e = fb.skip(k as int);
            proof {
                assert(r.rest() =~= e);
            }
            let name = match r.str() {
                Ok(s) => s,
                Err(err) => {
                    proof {
                        lemma_fn_entries_stuck(fb, (i + 1) as nat, (n - i - 1) as nat);
                    }
                    return Err(err);
                },
            };
            let ghost nl = (r.position() - r0.position()) as nat;
            proof {
                r0.lemma_rest_after(&r, nl);
            }
            let addr = match r.usize() {
                Ok(v) => v,
                Err(err) => {
                    proof {
                        lemma_fn_entries_stuck(fb, (i + 1) as nat, (n - i - 1) as nat);
                    }
                    return Err(err);
                },
            };
            proof {
                r0.lemma_rest_after(&r, nl + 4);
            }
            let arity = match r.usize() {
                Ok(v) => v,
                Err(err) => {
                    proof {
                        lemma_fn_entries_stuck(fb, (i + 1) as nat, (n - i - 1) as nat);
                    }
                    return Err(err);
                },
            };
            proof {
                r0.lemma_rest_after(&r, nl + 8);
            }
            let f = match r.usize() {
                Ok(v) => v,
                Err(err) => {
                    proof {
                        lemma_fn_entries_stuck(fb, (i + 1) as nat, (n - i - 1) as nat);
                    }
                    return Err(err);
                },
            };
            let ghost entry = (name@, FnDef { addr, arity, frame: f });
            proof {
                assert(e.subrange(nl as int, nl as int + 4) =~= e.skip(nl as int).take(4));
                assert(e.subrange(nl as int + 4, nl as int + 8) =~= e.skip(nl as int + 4).take(4));
                assert(e.subrange(nl as int + 8, nl as int + 12) =~= e.skip(nl as int + 8).take(4));
                assert(read_fn_entry(e) == Ok::<((Seq<char>, FnDef), nat), WireError>((entry, nl + 12)));
                let es2 = es.push(entry);
                assert(es2.drop_last() =~= es);
                es = es2;
            }
            fns.insert(name, FnDef { addr, arity, frame: f });
            i = i + 1;
        }
        proof { use_type_invariant(&r); }
        let ghost fn_len = (r.position() - 18) as nat;
        let ghost c = b.skip(18 + fn_len as int);
        proof {
            assert(r.rest() =~= c);
        }
        let count = match r.usize() {
            Ok(v) => v,
            Err(e) => return Err(e),
        };
        let ghost ob = c.skip(4);
        let ghost start = r.position();
        proof {
            use_type_invariant(&r);
            assert(r.rest() =~= ob);
        }
        let mut code: Vec<Op<X>> = Vec::new();
        let mut i: usize = 0;
        let ghost mut ops: Seq<(u8, Seq<Item>)> = Seq::empty();
        let ghost mut met_ext = false;
        while i < count
            invariant
                b == bytes@,
                i <= count,
                b.len() >= 18,
                b.take(4) == magic(),
                spec_u16_from_le_bytes(b.subrange(4, 6)) == FORMAT_VERSION,
                frame == spec_u32_from_le_bytes(b.subrange(6, 10)) as usize,
                globals == spec_u32_from_le_bytes(b.subrange(10, 14)) as usize,
                n == spec_u32_from_le_bytes(b.subrange(14, 18)) as usize,
                read_fn_entries(b.skip(18), n as nat) == Ok::<(Seq<(Seq<char>, FnDef)>, nat), WireError>((es, fn_len)),
                fns.wf(),
                fns@ == table_of(es),
                c == b.skip(18 + fn_len as int),
                c.len() >= 4,
                count == spec_u32_from_le_bytes(c.take(4)) as usize,
                ob == b.subrange(start as int, b.len() as int),
                ob == c.skip(4),
                met_ext ==> read_ops(ob, count as nat) is None,
                !met_ext ==> {
                    &&& start <= r.position() <= b.len()
                    &&& r.input() == b
                    &&& read_ops(ob, i as nat) == Some(
                        Ok::<(Seq<(u8, Seq<Item>)>, nat), WireError>((ops, (r.position() - start) as nat)),
                    )
                    &&& code@.len() == ops.len()
                    &&& forall|j: int| 0 <= j < ops.len() ==> !(#[trigger] code@[j] is Ext) && words_fit(code@[j])
                        && tag_of(code@[j]) == ops[j].0 && items_of(code@[j]) == ops[j].1
                },
            decreases count - i,
        {
            proof { use_type_invariant(&r); }
            let ghost k = (r.position() - start) as nat;
            proof {
                if !met_ext {
                    assert(r.rest() =~= ob.skip(k as int));
                }
            }
            let op = match get_op(&mut r) {
                Ok(op) => op,
                Err(e) => {
                    proof {
                        if !met_ext {
                            lemma_read_ops_stuck(ob, (i + 1) as nat, (count - i - 1) as nat);
                        }
                    }
                    return Err(e);
                },
            };
            proof {
                use_type_invariant(&r);
                if !met_ext {
                    if decode_op(ob.skip(k as int)) is None {
                        lemma_read_ops_stuck(ob, (i + 1) as nat, (count - i - 1) as nat);
                        met_ext = true;
                    } else {
                        ops = ops.push((tag_of(op), items_of(op)));
                    }
                }
            }
            let ghost code0 = code@;
            code.push(op);
            proof {
                if !met_ext {
                    assert forall|j: int| 0 <= j < ops.len() implies !(#[trigger] code@[j] is Ext) && words_fit(code@[j])
                        && tag_of(code@[j]) == ops[j].0 && items_of(code@[j]) == ops[j].1 by {
                        if j < ops.len() - 1 {
                            assert(code@[j] == code0[j]);
                        }
                    }
                }
            }
            i = i + 1;
        }
        Ok(Program { code, fns, frame, globals })
    }
}

/// Once reading records fails, reading more fails the same way.
proof fn lemma_fn_entries_stuck(b: Seq<u8>, k: nat, more: nat)
    requires
        read_fn_entries(b, k) is Err,
    ensures
        read_fn_entries(b, k + more) == read_fn_entries(b, k),
    decreases more,
{
    if more > 0 {
        lemma_fn_entries_stuck(b, k, (more - 1) as nat);
    }
}

/// Once reading instructions fails or meets an extension, reading more
/// ends the same way.
proof fn lemma_read_ops_stuck(b: Seq<u8>, k: nat, more: nat)
    requires
        !(read_ops(b, k) matches Some(Ok(_))),
    ensures
        read_ops(b, k + more) == read_ops(b, k),
    decreases more,
{
    if more > 0 {
        lemma_read_ops_stuck(b, k, (more - 1) as nat);
    }
}


// ---------------------------------------------------------------------------
// A program read back
// ---------------------------------------------------------------------------

/// A function record the format can hold.
pub open spec fn entry_fits(e: (Seq<char>, FnDef)) -> bool {
    &&& text_fits(e.0)
    &&& e.1.addr <= u32::MAX
    &&& e.1.arity <= u32::MAX
    &&& e.1.frame <= u32::MAX
}

/// A program the format can hold: a well-formed table, no extension
/// instructions, and every number and text within the format's 32 bits.
pub open spec fn program_fits<X>(p: Program<X>) -> bool {
    &&& p.fns.wf()
    &&& p.frame <= u32::MAX
    &&& p.globals <= u32::MAX
    &&& p.fns.names().len() <= u32::MAX
    &&& p.code@.len() <= u32::MAX
    &&& forall|i: int| 0 <= i < p.fns.names().len() ==> entry_fits(#[trigger] p.fns.listing()[i])
    &&& forall|i: int| 0 <= i < p.code@.len() ==> !(#[trigger] p.code@[i] is Ext) && op_fits(p.code@[i])
}

/// The same program: the same numbers, the same functions under the same
/// keys, and the same instructions in the same order.
pub open spec fn same_program<X>(p: Program<X>, q: Program<X>) -> bool {
    &&& p.frame == q.frame
    &&& p.globals == q.globals
    &&& p.fns@ == q.fns@
    &&& p.code@.len() == q.code@.len()
    &&& forall|i: int| 0 <= i < p.code@.len() ==> same_op(#[trigger] p.code@[i], q.code@[i])
}

/// Each instruction's tag and fields.
pub open spec fn code_shape<X>(code: Seq<Op<X>>) -> Seq<(u8, Seq<Item>)> {
    code.map_values(|op: Op<X>| (tag_of(op), items_of(op)))
}

proof fn lemma_word_round(t: usize)
    requires
        t <= u32::MAX,
    ensures
        word_of(t) as usize == t,
{
    assert(t == (t as u32) as usize) by (bit_vector)
        requires
            t <= 0xffff_ffffusize,
    ;
}

proof fn lemma_fn_entry_back(e: (Seq<char>, FnDef), tail: Seq<u8>)
    requires
        entry_fits(e),
    ensures
        read_fn_entry(fn_entry_bytes(e) + tail) == Ok::<((Seq<char>, FnDef), nat), WireError>(
            (e, fn_entry_bytes(e).len()),
        ),
{
    vstd::bytes::lemma_auto_spec_u32_to_from_le_bytes();
    let a = spec_u32_to_le_bytes(word_of(e.1.addr));
    let r = spec_u32_to_le_bytes(word_of(e.1.arity));
    let f = spec_u32_to_le_bytes(word_of(e.1.frame));
    let b = fn_entry_bytes(e) + tail;
    let s = str_bytes(e.0);
    assert(b =~= s + (a + r + f + tail));
    lemma_read_text_back(e.0, a + r + f + tail);
    let n = s.len() as int;
    assert(b.subrange(n, n + 4) =~= a);
    assert(b.subrange(n + 4, n + 8) =~= r);
    assert(b.subrange(n + 8, n + 12) =~= f);
    lemma_word_round(e.1.addr);
    lemma_word_round(e.1.arity);
    lemma_word_round(e.1.frame);
}

proof fn lemma_fn_entries_back(es: Seq<(Seq<char>, FnDef)>, tail: Seq<u8>)
    requires
        forall|i: int| 0 <= i < es.len() ==> entry_fits(#[trigger] es[i]),
    ensures
        read_fn_entries(fns_bytes(es) + tail, es.len()) == Ok::<(Seq<(Seq<char>, FnDef)>, nat), WireError>(
            (es, fns_bytes(es).len()),
        ),
    decreases es.len(),
{
    if es.len() > 0 {
        let front = es.drop_last();
        let last = es.last();
        let rest = fn_entry_bytes(last) + tail;
        assert forall|i: int| 0 <= i < front.len() implies entry_fits(#[trigger] front[i]) by {
            assert(entry_fits(es[i]));
        }
        lemma_fn_entries_back(front, rest);
        let b = fns_bytes(es) + tail;
        assert(b =~= fns_bytes(front) + rest);
        assert(b.skip(fns_bytes(front).len() as int) =~= rest);
        assert(entry_fits(es[es.len() - 1]));
        lemma_fn_entry_back(last, tail);
        assert(front.push(last) =~= es);
    } else {
        assert(es =~= Seq::<(Seq<char>, FnDef)>::empty());
    }
}

proof fn lemma_ops_back<X>(code: Seq<Op<X>>, tail: Seq<u8>)
    requires
        forall|i: int| 0 <= i < code.len() ==> !(#[trigger] code[i] is Ext) && op_fits(code[i]),
    ensures
        read_ops(code_bytes(code) + tail, code.len()) == Some(
            Ok::<(Seq<(u8, Seq<Item>)>, nat), WireError>((code_shape(code), code_bytes(code).len())),
        ),
    decreases code.len(),
{
    if code.len() > 0 {
        let front = code.drop_last();
        let last = code.last();
        let rest = op_bytes(last) + tail;
        assert forall|i: int| 0 <= i < front.len() implies !(#[trigger] front[i] is Ext) && op_fits(front[i]) by {
            assert(!(code[i] is Ext) && op_fits(code[i]));
        }
        lemma_ops_back(front, rest);
        let b = code_bytes(code) + tail;
        assert(b =~= code_bytes(front) + rest);
        assert(b.skip(code_bytes(front).len() as int) =~= rest);
        assert(!(code[code.len() - 1] is Ext) && op_fits(code[code.len() - 1]));
        lemma_op_reads_back(last, tail);
        assert(code_shape(front).push((tag_of(last), items_of(last))) =~= code_shape(code));
    } else {
        assert(code_shape(code) =~= Seq::<(u8, Seq<Item>)>::empty());
    }
}

/// Inserting records whose keys do not repeat leaves each key with its
/// record.
proof fn lemma_table_of_distinct(es: Seq<(Seq<char>, FnDef)>)
    requires
        forall|i: int, j: int| 0 <= i < j < es.len() ==> es[i].0 != es[j].0,
    ensures
        forall|k: Seq<char>| #![auto] table_of(es).contains_key(k) <==> exists|i: int| 0 <= i < es.len() && es[i].0 == k,
        forall|i: int| #![auto] 0 <= i < es.len() ==> table_of(es)[es[i].0] == es[i].1,
    decreases es.len(),
{
    if es.len() > 0 {
        let front = es.drop_last();
        lemma_table_of_distinct(front);
        let n = es.len() - 1;
        assert forall|k: Seq<char>| #![auto] table_of(es).contains_key(k) <==> exists|i: int| 0 <= i < es.len() && es[i].0 == k by {
            if table_of(es).contains_key(k) {
                if k != es[n].0 {
                    assert(table_of(front).contains_key(k));
                    let i = choose|i: int| 0 <= i < front.len() && front[i].0 == k;
                    assert(front[i] == es[i]);
                    assert(0 <= i < es.len() && es[i].0 == k);
                } else {
                    assert(0 <= n < es.len() && es[n].0 == k);
                }
            }
            if exists|i: int| 0 <= i < es.len() && es[i].0 == k {
                let i = choose|i: int| 0 <= i < es.len() && es[i].0 == k;
                if i < n {
                    assert(front[i] == es[i]);
                    assert(0 <= i < front.len() && front[i].0 == k);
                }
            }
        }
        assert forall|i: int| #![auto] 0 <= i < es.len() implies table_of(es)[es[i].0] == es[i].1 by {
            if i < n {
                assert(front[i] == es[i]);
                assert(es[i].0 != es[n].0);
            }
        }
    }
}

/// A well-formed table is what inserting its own records in order leaves.
proof fn lemma_table_of_listing(t: FnTable)
    requires
        t.wf(),
    ensures
        table_of(t.listing()) == t@,
{
    let es = t.listing();
    assert forall|i: int, j: int| 0 <= i < j < es.len() implies es[i].0 != es[j].0 by {
        if es[i].0 == es[j].0 {
            lemma_seq_less_asym(t.names()[i], t.names()[j]);
        }
    }
    lemma_table_of_distinct(es);
    assert forall|k: Seq<char>| #![auto] table_of(es).contains_key(k) <==> t@.contains_key(k) by {
        if t.names().contains(k) {
            let i = t.names().index_of(k);
            assert(es[i].0 == k);
        }
        if exists|i: int| 0 <= i < es.len() && es[i].0 == k {
            let i = choose|i: int| 0 <= i < es.len() && es[i].0 == k;
            assert(t.names()[i] == k);
        }
    }
    assert forall|k: Seq<char>| #![auto] table_of(es).contains_key(k) implies table_of(es)[k] == t@[k] by {
        let i = t.names().index_of(k);
        t.lemma_index_of(i);
        assert(es[i].0 == k);
    }
    assert(table_of(es) =~= t@);
}


/// What is written is read back. Decoding the bytes of a program the format
/// can hold gives its header numbers, its function records in key order and
/// each instruction's tag and fields; and any program that decoded stream
/// describes, such as the one `from_bytes` returns for `to_bytes`'s output,
/// is the same program.
pub proof fn programs_read_back<X>(p: Program<X>, q: Program<X>)
    requires
        program_fits(p),
    ensures
        decode_program(program_bytes(p)) == Some(
            Ok::<Decoded, WireError>(
                Decoded { frame: p.frame, globals: p.globals, fns: p.fns.listing(), code: code_shape(p.code@) },
            ),
        ),
        describes(
            Decoded { frame: p.frame, globals: p.globals, fns: p.fns.listing(), code: code_shape(p.code@) },
            q,
        ) ==> same_program(p, q),
{
    vstd::bytes::lemma_auto_spec_u16_to_from_le_bytes();
    vstd::bytes::lemma_auto_spec_u32_to_from_le_bytes();
    let b = program_bytes(p);
    let fr = spec_u32_to_le_bytes(word_of(p.frame));
    let gl = spec_u32_to_le_bytes(word_of(p.globals));
    let nf = count_bytes(p.fns.names().len());
    let fbs = fns_bytes(p.fns.listing());
    let nc = count_bytes(p.code@.len());
    let cbs = code_bytes(p.code@);
    let ver = spec_u16_to_le_bytes(FORMAT_VERSION);
    assert(b =~= magic() + ver + fr + gl + nf + fbs + nc + cbs);
    assert(b.take(4) =~= magic());
    assert(b.subrange(4, 6) =~= ver);
    assert(b.subrange(6, 10) =~= fr);
    assert(b.subrange(10, 14) =~= gl);
    assert(b.subrange(14, 18) =~= nf);
    lemma_word_round(p.frame);
    lemma_word_round(p.globals);
    let nfns = p.fns.names().len();
    lemma_word_round(nfns as usize);
    let ncode = p.code@.len();
    lemma_word_round(ncode as usize);
    assert(spec_u32_from_le_bytes(b.subrange(14, 18)) as nat == p.fns.listing().len());
    assert(b.skip(18) =~= fbs + (nc + cbs));
    lemma_fn_entries_back(p.fns.listing(), nc + cbs);
    let c = b.skip(18 + fbs.len() as int);
    assert(c =~= nc + cbs);
    assert(c.take(4) =~= nc);
    assert(c.skip(4) =~= cbs + Seq::<u8>::empty());
    lemma_ops_back(p.code@, Seq::<u8>::empty());
    assert(spec_u32_from_le_bytes(c.take(4)) as nat == p.code@.len());
    let d = Decoded { frame: p.frame, globals: p.globals, fns: p.fns.listing(), code: code_shape(p.code@) };
    if describes(d, q) {
        lemma_table_of_listing(p.fns);
        assert forall|i: int| 0 <= i < p.code@.len() implies same_op(#[trigger] p.code@[i], q.code@[i]) by {
            assert(!(q.code@[i] is Ext) && words_fit(q.code@[i]));
            assert(!(p.code@[i] is Ext) && op_fits(p.code@[i]));
            lemma_fields_determine_op(p.code@[i], q.code@[i]);
        }
    }
}


/// Two well-formed tables holding the same functions list them alike.
proof fn lemma_same_table_same_listing(s: FnTable, t: FnTable)
    requires
        s.wf(),
        t.wf(),
        s@ == t@,
    ensures
        s.listing() == t.listing(),
{
    assert forall|k: Seq<char>| s.names().contains(k) <==> t.names().contains(k) by {
        assert(s@.contains_key(k) == s.names().contains(k));
        assert(t@.contains_key(k) == t.names().contains(k));
    }
    crate::text::lemma_sorted_same_keys(s.names(), t.names());
    assert forall|i: int| 0 <= i < s.names().len() implies s.defs()[i] == t.defs()[i] by {
        s.lemma_index_of(i);
        t.lemma_index_of(i);
    }
    assert(s.listing() =~= t.listing());
}

proof fn lemma_same_code_same_bytes<X>(a: Seq<Op<X>>, b: Seq<Op<X>>)
    requires
        a.len() == b.len(),
        forall|i: int| 0 <= i < a.len() ==> !(#[trigger] a[i] is Ext) && same_op(a[i], b[i]),
    ensures
        code_bytes(a) == code_bytes(b),
    decreases a.len(),
{
    if a.len() > 0 {
        let n = a.len() - 1;
        assert forall|i: int| 0 <= i < n implies !(#[trigger] a.drop_last()[i] is Ext) && same_op(
            a.drop_last()[i],
            b.drop_last()[i],
        ) by {
            assert(!(a[i] is Ext) && same_op(a[i], b[i]));
        }
        lemma_same_code_same_bytes(a.drop_last(), b.drop_last());
        assert(!(a[n] is Ext) && same_op(a[n], b[n]));
        assert(tag_of(a[n]) == tag_of(b[n]));
        assert(items_of(a[n]) =~= items_of(b[n]));
    }
}

/// Encoding depends only on what a program is: the same program is always
/// written as the same bytes, in whatever order its functions were added.
pub proof fn same_programs_write_alike<X>(p: Program<X>, q: Program<X>)
    requires
        p.fns.wf(),
        q.fns.wf(),
        forall|i: int| 0 <= i < p.code@.len() ==> !(#[trigger] p.code@[i] is Ext),
        same_program(p, q),
    ensures
        program_bytes(p) == program_bytes(q),
{
    lemma_same_table_same_listing(p.fns, q.fns);
    assert forall|i: int| 0 <= i < p.code@.len() implies !(#[trigger] p.code@[i] is Ext) && same_op(
        p.code@[i],
        q.code@[i],
    ) by {}
    lemma_same_code_same_bytes(p.code@, q.code@);
}

} // verus!
