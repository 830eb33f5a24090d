//! A streaming pull parser for the Named Binary Tag (NBT) binary format.
//!
//! `Parser::next` emits the document as a flat sequence of typed values in
//! depth-first document order, without building a tree: a `Compound(name)`
//! value opens a compound whose named children follow until a synthetic
//! `CompoundEnd`; a `List(name, tag, count)` value opens a list whose unnamed
//! elements follow until a synthetic `ListEnd`. A clean end of the stream is
//! the `EOF` error; any other short read is an I/O error.
//!
//! The parser's whole behaviour is pinned down by the specification-level
//! step function `spec_step` over the ghost model `ParserModel`; `tree`
//! proves from it that parsing an encoded document yields exactly its
//! pre-order traversal.

use vstd::prelude::*;
use crate::bytes::{IoError, be_uint, lemma_be_uint_bound, lemma_pow256_values, pow256,
    read_be_uint, sign8, sign16, sign32, sign64, to_signed};
use vstd::utf8::{decode_utf8, valid_utf8};

verus! {

/// The NBT tag codes 0 through 12. This does not carry the value or the name.
#[derive(Debug, Clone, Copy, PartialEq, Eq, Structural)]
pub enum Tag {
    End,
    Byte,
    Short,
    Int,
    Long,
    Float,
    Double,
    ByteArray,
    String,
    List,
    Compound,
    IntArray,
    LongArray,
}

/// The tag a wire-format code byte denotes, if any.
pub open spec fn spec_tag_of(code: u8) -> Option<Tag> {
    if code == 0 {
        Some(Tag::End)
    } else if code == 1 {
        Some(Tag::Byte)
    } else if code == 2 {
        Some(Tag::Short)
    } else if code == 3 {
        Some(Tag::Int)
    } else if code == 4 {
        Some(Tag::Long)
    } else if code == 5 {
        Some(Tag::Float)
    } else if code == 6 {
        Some(Tag::Double)
    } else if code == 7 {
        Some(Tag::ByteArray)
    } else if code == 8 {
        Some(Tag::String)
    } else if code == 9 {
        Some(Tag::List)
    } else if code == 10 {
        Some(Tag::Compound)
    } else if code == 11 {
        Some(Tag::IntArray)
    } else if code == 12 {
        Some(Tag::LongArray)
    } else {
        None
    }
}

/// The wire-format code byte of a tag: the inverse of `spec_tag_of`.
pub open spec fn tag_code(t: Tag) -> u8 {
    match t {
        Tag::End => 0,
        Tag::Byte => 1,
        Tag::Short => 2,
        Tag::Int => 3,
        Tag::Long => 4,
        Tag::Float => 5,
        Tag::Double => 6,
        Tag::ByteArray => 7,
        Tag::String => 8,
        Tag::List => 9,
        Tag::Compound => 10,
        Tag::IntArray => 11,
        Tag::LongArray => 12,
    }
}

/// Decode a wire-format tag byte, rejecting codes above 12.
pub fn u8_to_tag(tag: u8) -> (r: Result<Tag, Error>)
    ensures
        match spec_tag_of(tag) {
            Some(t) => r == Ok::<Tag, Error>(t),
            None => r == Err::<Tag, Error>(Error::InvalidTag(tag)),
        },
{
    if tag == 0 {
        Ok(Tag::End)
    } else if tag == 1 {
        Ok(Tag::Byte)
    } else if tag == 2 {
        Ok(Tag::Short)
    } else if tag == 3 {
        Ok(Tag::Int)
    } else if tag == 4 {
        Ok(Tag::Long)
    } else if tag == 5 {
        Ok(Tag::Float)
    } else if tag == 6 {
        Ok(Tag::Double)
    } else if tag == 7 {
        Ok(Tag::ByteArray)
    } else if tag == 8 {
        Ok(Tag::String)
    } else if tag == 9 {
        Ok(Tag::List)
    } else if tag == 10 {
        Ok(Tag::Compound)
    } else if tag == 11 {
        Ok(Tag::IntArray)
    } else if tag == 12 {
        Ok(Tag::LongArray)
    } else {
        Err(Error::InvalidTag(tag))
    }
}

/// The optional name of a value: present for direct children of a compound
/// and for the root, absent for list elements and the synthetic terminators.
pub type Name = Option<String>;

/// One value of the flat sequence the parser emits.
///
/// `Float` and `Double` carry the raw big-endian IEEE-754 bit pattern of the
/// wire value, so every bit of the payload is preserved.
#[derive(Debug, PartialEq)]
pub enum Value {
    CompoundEnd,
    Byte(Name, i8),
    Short(Name, i16),
    Int(Name, i32),
    Long(Name, i64),
    Float(Name, u32),
    Double(Name, u64),
    ByteArray(Name, Vec<i8>),
    String(Name, String),
    List(Name, Tag, i32),
    ListEnd,
    Compound(Name),
    IntArray(Name, Vec<i32>),
    LongArray(Name, Vec<i64>),
}

/// Failures and signals of the parser. `EOF` is the expected clean end of the
/// stream; the synthetic terminators arrive as values, not as errors.
#[derive(Debug, PartialEq, Eq)]
pub enum Error {
    /// A byte-level failure: the input ended inside an element.
    IO(IoError),
    /// An incomplete read signalled by a layer above the parser; the parser
    /// itself reports short reads as `IO`.
    ShortRead,
    /// An unknown tag byte, or an End tag at the root or under a list.
    InvalidTag(u8),
    /// A name or string payload that is not valid UTF-8.
    InvalidName,
    /// The clean end of the stream: a whole number of values was read.
    EOF,
}

/// One layer of parsing context: the enclosing compound or list. A list layer
/// carries its element tag and how many elements remain to be emitted.
#[derive(Debug, Clone, Copy)]
pub enum Layer {
    List(Tag, i32),
    Compound,
}

/// The mathematical mirror of a `Value`: names and strings as character
/// sequences, arrays as sequences of integers.
pub ghost enum SpecValue {
    CompoundEnd,
    Byte(Option<Seq<char>>, i8),
    Short(Option<Seq<char>>, i16),
    Int(Option<Seq<char>>, i32),
    Long(Option<Seq<char>>, i64),
    Float(Option<Seq<char>>, u32),
    Double(Option<Seq<char>>, u64),
    ByteArray(Option<Seq<char>>, Seq<i8>),
    String(Option<Seq<char>>, Seq<char>),
    List(Option<Seq<char>>, Tag, i32),
    ListEnd,
    Compound(Option<Seq<char>>),
    IntArray(Option<Seq<char>>, Seq<i32>),
    LongArray(Option<Seq<char>>, Seq<i64>),
}

/// The view of an optional name.
pub open spec fn spec_name(n: Option<String>) -> Option<Seq<char>> {
    match n {
        Some(s) => Some(s@),
        None => None,
    }
}

impl View for Value {
    type V = SpecValue;

    open spec fn view(&self) -> SpecValue {
        match self {
            Value::CompoundEnd => SpecValue::CompoundEnd,
            Value::Byte(n, v) => SpecValue::Byte(spec_name(*n), *v),
            Value::Short(n, v) => SpecValue::Short(spec_name(*n), *v),
            Value::Int(n, v) => SpecValue::Int(spec_name(*n), *v),
            Value::Long(n, v) => SpecValue::Long(spec_name(*n), *v),
            Value::Float(n, v) => SpecValue::Float(spec_name(*n), *v),
            Value::Double(n, v) => SpecValue::Double(spec_name(*n), *v),
            Value::ByteArray(n, v) => SpecValue::ByteArray(spec_name(*n), v@),
            Value::String(n, v) => SpecValue::String(spec_name(*n), v@),
            Value::List(n, t, c) => SpecValue::List(spec_name(*n), *t, *c),
            Value::ListEnd => SpecValue::ListEnd,
            Value::Compound(n) => SpecValue::Compound(spec_name(*n)),
            Value::IntArray(n, v) => SpecValue::IntArray(spec_name(*n), v@),
            Value::LongArray(n, v) => SpecValue::LongArray(spec_name(*n), v@),
        }
    }
}

/// The parser's whole state: the input bytes, the read position, and the
/// stack of open containers.
pub ghost struct ParserModel {
    pub input: Seq<u8>,
    pub pos: int,
    pub layers: Seq<Layer>,
}

impl ParserModel {
    pub open spec fn wf(self) -> bool {
        0 <= self.pos <= self.input.len()
    }

    pub open spec fn remaining(self) -> int {
        self.input.len() - self.pos
    }

    pub open spec fn advanced(self, n: int) -> ParserModel {
        ParserModel { pos: self.pos + n, ..self }
    }
}

/// What one call of `Parser::next` does, as seen from the model.
pub ghost enum Step {
    /// A value is emitted and the parser moves to `next`.
    Emit { v: SpecValue, next: ParserModel },
    /// The clean end of the stream: no byte remained where a tag was due.
    Eof,
    /// The input ended inside an element: an unexpected-end I/O error.
    Truncated,
    /// An unknown tag byte, or an End tag at the root or under a list.
    BadTag { code: u8 },
    /// A name or string payload that is not valid UTF-8.
    BadName,
}

/// The outcome of decoding a length-prefixed string at `pos`: the decoded
/// characters and the position just past them, or why they cannot be had.
pub ghost enum StrRead {
    TooShort,
    NotUtf8,
    Str { chars: Seq<char>, end: int },
}

/// Decode the length-prefixed UTF-8 string at `pos`: a big-endian 16-bit
/// byte count, then that many bytes.
pub open spec fn spec_read_string(s: Seq<u8>, pos: int) -> StrRead {
    if pos + 2 > s.len() {
        StrRead::TooShort
    } else {
        let n = be_uint(s, pos, 2);
        if pos + 2 + n > s.len() {
            StrRead::TooShort
        } else {
            let bs = s.subrange(pos + 2, pos + 2 + n);
            if valid_utf8(bs) {
                StrRead::Str { chars: decode_utf8(bs), end: pos + 2 + n }
            } else {
                StrRead::NotUtf8
            }
        }
    }
}

/// Decode the payload of a value of tag `t` at `m.pos`, `m.layers` having
/// already been adjusted for the enclosing context.
pub open spec fn spec_payload(t: Tag, name: Option<Seq<char>>, m: ParserModel) -> Step {
    match t {
        Tag::End => Step::BadTag { code: 0 },
        Tag::Byte => if m.remaining() < 1 {
            Step::Truncated
        } else {
            Step::Emit {
                v: SpecValue::Byte(name, to_signed(be_uint(m.input, m.pos, 1), 1) as i8),
                next: m.advanced(1),
            }
        },
        Tag::Short => if m.remaining() < 2 {
            Step::Truncated
        } else {
            Step::Emit {
                v: SpecValue::Short(name, to_signed(be_uint(m.input, m.pos, 2), 2) as i16),
                next: m.advanced(2),
            }
        },
        Tag::Int => if m.remaining() < 4 {
            Step::Truncated
        } else {
            Step::Emit {
                v: SpecValue::Int(name, to_signed(be_uint(m.input, m.pos, 4), 4) as i32),
                next: m.advanced(4),
            }
        },
        Tag::Long => if m.remaining() < 8 {
            Step::Truncated
        } else {
            Step::Emit {
                v: SpecValue::Long(name, to_signed(be_uint(m.input, m.pos, 8), 8) as i64),
                next: m.advanced(8),
            }
        },
        Tag::Float => if m.remaining() < 4 {
            Step::Truncated
        } else {
            Step::Emit {
                v: SpecValue::Float(name, be_uint(m.input, m.pos, 4) as u32),
                next: m.advanced(4),
            }
        },
        Tag::Double => if m.remaining() < 8 {
            Step::Truncated
        } else {
            Step::Emit {
                v: SpecValue::Double(name, be_uint(m.input, m.pos, 8) as u64),
                next: m.advanced(8),
            }
        },
        Tag::String => match spec_read_string(m.input, m.pos) {
            StrRead::TooShort => Step::Truncated,
            StrRead::NotUtf8 => Step::BadName,
            StrRead::Str { chars, end } => Step::Emit {
                v: SpecValue::String(name, chars),
                next: ParserModel { pos: end, ..m },
            },
        },
        Tag::ByteArray => if m.remaining() < 4 {
            Step::Truncated
        } else {
            let c = to_signed(be_uint(m.input, m.pos, 4), 4);
            if c < 0 || m.pos + 4 + c > m.input.len() {
                Step::Truncated
            } else {
                Step::Emit {
                    v: SpecValue::ByteArray(
                        name,
                        Seq::new(c as nat, |i: int| to_signed(m.input[m.pos + 4 + i] as int, 1) as i8),
                    ),
                    next: m.advanced(4 + c),
                }
            }
        },
        Tag::IntArray => if m.remaining() < 4 {
            Step::Truncated
        } else {
            let c = to_signed(be_uint(m.input, m.pos, 4), 4);
            if c < 0 || m.pos + 4 + 4 * c > m.input.len() {
                Step::Truncated
            } else {
                Step::Emit {
                    v: SpecValue::IntArray(
                        name,
                        Seq::new(
                            c as nat,
                            |i: int| to_signed(be_uint(m.input, m.pos + 4 + 4 * i, 4), 4) as i32,
                        ),
                    ),
                    next: m.advanced(4 + 4 * c),
                }
            }
        },
        Tag::LongArray => if m.remaining() < 4 {
            Step::Truncated
        } else {
            let c = to_signed(be_uint(m.input, m.pos, 4), 4);
            if c < 0 || m.pos + 4 + 8 * c > m.input.len() {
                Step::Truncated
            } else {
                Step::Emit {
                    v: SpecValue::LongArray(
                        name,
                        Seq::new(
                            c as nat,
                            |i: int| to_signed(be_uint(m.input, m.pos + 4 + 8 * i, 8), 8) as i64,
                        ),
                    ),
                    next: m.advanced(4 + 8 * c),
                }
            }
        },
        Tag::List => if m.remaining() < 1 {
            Step::Truncated
        } else {
            let code = m.input[m.pos];
            match spec_tag_of(code) {
                None => Step::BadTag { code },
                Some(et) => if m.remaining() < 5 {
                    Step::Truncated
                } else {
                    let c = to_signed(be_uint(m.input, m.pos + 1, 4), 4) as i32;
                    Step::Emit {
                        v: SpecValue::List(name, et, c),
                        next: ParserModel {
                            pos: m.pos + 5,
                            layers: m.layers.push(Layer::List(et, c)),
                            ..m
                        },
                    }
                },
            }
        },
        Tag::Compound => Step::Emit {
            v: SpecValue::Compound(name),
            next: ParserModel { layers: m.layers.push(Layer::Compound), ..m },
        },
    }
}

/// One step at compound scope or at the root: read a tag byte, then either
/// close the enclosing compound, or read a name and the named payload. No
/// byte where the tag was due is the clean end of the stream.
pub open spec fn spec_step_tag(m: ParserModel) -> Step {
    if m.pos >= m.input.len() {
        Step::Eof
    } else {
        let code = m.input[m.pos];
        match spec_tag_of(code) {
            None => Step::BadTag { code },
            Some(t) => if t is End {
                if m.layers.len() > 0 {
                    Step::Emit {
                        v: SpecValue::CompoundEnd,
                        next: ParserModel {
                            pos: m.pos + 1,
                            layers: m.layers.drop_last(),
                            ..m
                        },
                    }
                } else {
                    Step::BadTag { code: 0 }
                }
            } else {
                match spec_read_string(m.input, m.pos + 1) {
                    StrRead::TooShort => Step::Truncated,
                    StrRead::NotUtf8 => Step::BadName,
                    StrRead::Str { chars, end } => spec_payload(
                        t,
                        Some(chars),
                        ParserModel { pos: end, ..m },
                    ),
                }
            },
        }
    }
}

/// What one call of `Parser::next` does to a parser in state `m`.
///
/// At the top of an exhausted or non-positive list the layer is popped and
/// `ListEnd` emitted; at the top of a pending list the remaining count is
/// decremented and one unnamed element payload read; otherwise a tag byte is
/// read at compound or root scope (`spec_step_tag`).
pub open spec fn spec_step(m: ParserModel) -> Step {
    if m.layers.len() > 0 {
        match m.layers.last() {
            Layer::List(t, r) => if r <= 0 {
                Step::Emit {
                    v: SpecValue::ListEnd,
                    next: ParserModel { layers: m.layers.drop_last(), ..m },
                }
            } else {
                spec_payload(
                    t,
                    None,
                    ParserModel {
                        layers: m.layers.drop_last().push(Layer::List(t, (r - 1) as i32)),
                        ..m
                    },
                )
            },
            Layer::Compound => spec_step_tag(m),
        }
    } else {
        spec_step_tag(m)
    }
}

/// How a completed call of `Parser::next` relates the old state, the new
/// state and the result: exactly as `spec_step` says. On any failure the
/// input is unchanged; on `EOF` the whole state is unchanged, so every later
/// call yields `EOF` again.
pub open spec fn step_ok(pre: ParserModel, post: ParserModel, r: Result<Value, Error>) -> bool {
    &&& post.input == pre.input
    &&& post.wf()
    &&& match spec_step(pre) {
        Step::Emit { v, next } => r matches Ok(val) && val@ == v && post == next,
        Step::Eof => r == Err::<Value, Error>(Error::EOF) && post == pre,
        Step::Truncated => r == Err::<Value, Error>(Error::IO(IoError::UnexpectedEof)),
        Step::BadTag { code } => r == Err::<Value, Error>(Error::InvalidTag(code)),
        Step::BadName => r == Err::<Value, Error>(Error::InvalidName),
    }
}

/// Relies on std::str::from_utf8: it returns `Ok` exactly on valid UTF-8
/// input, and the returned string slice is the decoding of those bytes.
#[verifier::external_body]
fn utf8_from(b: &[u8]) -> (r: Option<&str>)
    ensures
        r is Some <==> valid_utf8(b@),
        match r {
            Some(s) => s@ == decode_utf8(b@),
            None => true,
        },
{
    std::str::from_utf8(b).ok()
}

/// The streaming NBT parser over an in-memory byte source. It holds no
/// output between calls beyond the stack of open containers.
pub struct Parser {
    data: Vec<u8>,
    pos: usize,
    layers: Vec<Layer>,
}

impl View for Parser {
    type V = ParserModel;

    closed spec fn view(&self) -> ParserModel {
        ParserModel { input: self.data@, pos: self.pos as int, layers: self.layers@ }
    }
}

impl Parser {
    /// A parser positioned at the start of `data` with no open containers.
    pub fn new(data: Vec<u8>) -> (p: Parser)
        ensures
            p@ == (ParserModel { input: data@, pos: 0, layers: Seq::<Layer>::empty() }),
    {
        let p = Parser { data, pos: 0, layers: Vec::new() };
        proof {
            assert(p@.layers =~= Seq::<Layer>::empty());
        }
        p
    }

    /// Read the unsigned big-endian integer in the next `n` bytes and advance
    /// past it; if fewer than `n` bytes remain, fail without moving.
    fn read_be(&mut self, n: usize) -> (r: Result<u64, Error>)
        requires
            old(self)@.wf(),
            1 <= n <= 8,
        ensures
            final(self)@.input == old(self)@.input,
            final(self)@.layers == old(self)@.layers,
            final(self)@.wf(),
            old(self)@.remaining() < n ==> r == Err::<u64, Error>(Error::IO(IoError::UnexpectedEof))
                && final(self)@ == old(self)@,
            old(self)@.remaining() >= n ==> (r matches Ok(v) && v as int == be_uint(
                old(self)@.input,
                old(self)@.pos,
                n as int,
            ) && v < pow256(n as nat) && final(self)@.pos == old(self)@.pos + n),
    {
        if self.data.len() - self.pos < n {
            return Err(Error::IO(IoError::UnexpectedEof));
        }
        let v = read_be_uint(self.data.as_slice(), self.pos, n);
        proof {
            crate::bytes::lemma_be_uint_bound(self.data@, self.pos as int, n as int);
        }
        self.pos = self.pos + n;
        Ok(v)
    }

    /// Read a length-prefixed UTF-8 string: a big-endian 16-bit byte count,
    /// then that many bytes, which must decode as UTF-8.
    fn read_size_prefixed_string(&mut self) -> (r: Result<String, Error>)
        requires
            old(self)@.wf(),
        ensures
            final(self)@.input == old(self)@.input,
            final(self)@.layers == old(self)@.layers,
            final(self)@.wf(),
            match spec_read_string(old(self)@.input, old(self)@.pos) {
                StrRead::TooShort => r == Err::<String, Error>(Error::IO(IoError::UnexpectedEof)),
                StrRead::NotUtf8 => r == Err::<String, Error>(Error::InvalidName),
                StrRead::Str { chars, end } => (r matches Ok(s) && s@ == chars && final(self)@.pos
                    == end),
            },
    {
        proof {
            lemma_pow256_values();
        }
        let n = match self.read_be(2) {
            Ok(v) => v,
            Err(e) => {
                return Err(e);
            },
        };
        let len = n as usize;
        if self.data.len() - self.pos < len {
            return Err(Error::IO(IoError::UnexpectedEof));
        }
        let bs = &self.data.as_slice()[self.pos..self.pos + len];
        match utf8_from(bs) {
            Some(s) => {
                let owned = s.to_owned();
                self.pos = self.pos + len;
                Ok(owned)
            },
            None => Err(Error::InvalidName),
        }
    }

    /// Read the payload of a value of tag `t`, the name and any list
    /// decrement having already been handled by `next`.
    fn read_payload(&mut self, t: Tag, name: Option<String>) -> (r: Result<Value, Error>)
        requires
            old(self)@.wf(),
        ensures
            final(self)@.input == old(self)@.input,
            final(self)@.wf(),
            match spec_payload(t, spec_name(name), old(self)@) {
                Step::Emit { v, next } => r matches Ok(val) && val@ == v && final(self)@ == next,
                Step::Truncated => r == Err::<Value, Error>(Error::IO(IoError::UnexpectedEof)),
                Step::BadTag { code } => r == Err::<Value, Error>(Error::InvalidTag(code)),
                Step::BadName => r == Err::<Value, Error>(Error::InvalidName),
                Step::Eof => false,
            },
    {
        proof {
            lemma_pow256_values();
        }
        let ghost nm = spec_name(name);
        let ghost pre = self@;
        match t {
            Tag::End => Err(Error::InvalidTag(0)),
            Tag::Byte => match self.read_be(1) {
                Ok(u) => Ok(Value::Byte(name, sign8(u as u8))),
                Err(e) => Err(e),
            },
            Tag::Short => match self.read_be(2) {
                Ok(u) => Ok(Value::Short(name, sign16(u))),
                Err(e) => Err(e),
            },
            Tag::Int => match self.read_be(4) {
                Ok(u) => Ok(Value::Int(name, sign32(u))),
                Err(e) => Err(e),
            },
            Tag::Long => match self.read_be(8) {
                Ok(u) => Ok(Value::Long(name, sign64(u))),
                Err(e) => Err(e),
            },
            Tag::Float => match self.read_be(4) {
                Ok(u) => Ok(Value::Float(name, u as u32)),
                Err(e) => Err(e),
            },
            Tag::Double => match self.read_be(8) {
                Ok(u) => Ok(Value::Double(name, u)),
                Err(e) => Err(e),
            },
            Tag::String => match self.read_size_prefixed_string() {
                Ok(s) => Ok(Value::String(name, s)),
                Err(e) => Err(e),
            },
            Tag::Compound => {
                self.layers.push(Layer::Compound);
                Ok(Value::Compound(name))
            },
            Tag::List => {
                let et_u = match self.read_be(1) {
                    Ok(u) => u,
                    Err(e) => {
                        return Err(e);
                    },
                };
                let et = match u8_to_tag(et_u as u8) {
                    Ok(t2) => t2,
                    Err(e) => {
                        return Err(e);
                    },
                };
                let c = match self.read_be(4) {
                    Ok(u) => sign32(u),
                    Err(e) => {
                        return Err(e);
                    },
                };
                self.layers.push(Layer::List(et, c));
                Ok(Value::List(name, et, c))
            },
            Tag::ByteArray => {
                let count = match self.read_array_count(1) {
                    Ok(c) => c,
                    Err(e) => {
                        return Err(e);
                    },
                };
                let ghost base = self@.pos;
                let mut out: Vec<i8> = Vec::new();
                let mut i: usize = 0;
                while i < count
                    invariant
                        i <= count,
                        self@.input == old(self)@.input,
                        self@.layers == old(self)@.layers,
                        base == old(self)@.pos + 4,
                        self@.pos == base + i,
                        base + count <= self@.input.len(),
                        out@.len() == i,
                        forall|j: int|
                            0 <= j < i ==> out@[j] as int == to_signed(
                                self@.input[base + j] as int,
                                1,
                            ),
                    decreases count - i,
                {
                    let u = match self.read_be(1) {
                        Ok(v) => v,
                        Err(e) => {
                            proof {
                                assert(false);
                            }
                            return Err(e);
                        },
                    };
                    proof {
                        lemma_pow256_values();
                        reveal_with_fuel(be_uint, 2);
                    }
                    out.push(sign8(u as u8));
                    i = i + 1;
                }
                proof {
                    let st = spec_payload(Tag::ByteArray, nm, pre);
                    assert(out@ =~= st->v->ByteArray_1);
                }
                Ok(Value::ByteArray(name, out))
            },
            Tag::IntArray => {
                let count = match self.read_array_count(4) {
                    Ok(c) => c,
                    Err(e) => {
                        return Err(e);
                    },
                };
                let ghost base = self@.pos;
                let mut out: Vec<i32> = Vec::new();
                let mut i: usize = 0;
                while i < count
                    invariant
                        i <= count,
                        self@.input == old(self)@.input,
                        self@.layers == old(self)@.layers,
                        base == old(self)@.pos + 4,
                        self@.pos == base + 4 * i,
                        base + 4 * count <= self@.input.len(),
                        out@.len() == i,
                        forall|j: int|
                            0 <= j < i ==> out@[j] as int == to_signed(
                                be_uint(self@.input, base + 4 * j, 4),
                                4,
                            ),
                    decreases count - i,
                {
                    let u = match self.read_be(4) {
                        Ok(v) => v,
                        Err(e) => {
                            proof {
                                assert(false);
                            }
                            return Err(e);
                        },
                    };
                    proof {
                        lemma_pow256_values();
                    }
                    out.push(sign32(u));
                    i = i + 1;
                }
                proof {
                    let st = spec_payload(Tag::IntArray, nm, pre);
                    assert(out@ =~= st->v->IntArray_1);
                }
                Ok(Value::IntArray(name, out))
            },
            Tag::LongArray => {
                let count = match self.read_array_count(8) {
                    Ok(c) => c,
                    Err(e) => {
                        return Err(e);
                    },
                };
                let ghost base = self@.pos;
                let mut out: Vec<i64> = Vec::new();
                let mut i: usize = 0;
                while i < count
                    invariant
                        i <= count,
                        self@.input == old(self)@.input,
                        self@.layers == old(self)@.layers,
                        base == old(self)@.pos + 4,
                        self@.pos == base + 8 * i,
                        base + 8 * count <= self@.input.len(),
                        out@.len() == i,
                        forall|j: int|
                            0 <= j < i ==> out@[j] as int == to_signed(
                                be_uint(self@.input, base + 8 * j, 8),
                                8,
                            ),
                    decreases count - i,
                {
                    let u = match self.read_be(8) {
                        Ok(v) => v,
                        Err(e) => {
                            proof {
                                assert(false);
                            }
                            return Err(e);
                        },
                    };
                    out.push(sign64(u));
                    i = i + 1;
                }
                proof {
                    let st = spec_payload(Tag::LongArray, nm, pre);
                    assert(out@ =~= st->v->LongArray_1);
                }
                Ok(Value::LongArray(name, out))
            },
        }
    }

    /// Read an array's element count and check that `stride * count` bytes
    /// remain; a negative count, like a short body, is treated as truncated
    /// input (the wire format leaves negative array counts undefined).
    fn read_array_count(&mut self, stride: usize) -> (r: Result<usize, Error>)
        requires
            old(self)@.wf(),
            stride == 1 || stride == 4 || stride == 8,
        ensures
            final(self)@.input == old(self)@.input,
            final(self)@.layers == old(self)@.layers,
            final(self)@.wf(),
            ({
                let c = to_signed(be_uint(old(self)@.input, old(self)@.pos, 4), 4);
                if old(self)@.remaining() < 4 || c < 0 || old(self)@.pos + 4 + stride * c
                    > old(self)@.input.len() {
                    r == Err::<usize, Error>(Error::IO(IoError::UnexpectedEof))
                } else {
                    0 <= c < 0x8000_0000 && r == Ok::<usize, Error>(c as usize) && final(self)@.pos
                        == old(self)@.pos + 4 && final(self)@.pos + stride * c
                        <= final(self)@.input.len()
                }
            }),
    {
        proof {
            lemma_pow256_values();
        }
        let c_u = match self.read_be(4) {
            Ok(v) => v,
            Err(e) => {
                return Err(e);
            },
        };
        let c = sign32(c_u);
        if c < 0 {
            return Err(Error::IO(IoError::UnexpectedEof));
        }
        let count = c as usize;
        let rem = self.data.len() - self.pos;
        proof {
            vstd::arithmetic::div_mod::lemma_fundamental_div_mod(rem as int, stride as int);
        }
        if count > rem / stride {
            return Err(Error::IO(IoError::UnexpectedEof));
        }
        Ok(count)
    }

    /// Emit the next value of the stream in depth-first document order.
    ///
    /// What is returned and how the parser moves is exactly `spec_step` of
    /// the parser's state: the pending-list bookkeeping, the synthetic
    /// `ListEnd` and `CompoundEnd` terminators, the benign `EOF` at a tag
    /// boundary, and each error on exactly the inputs that force it.
    pub fn next(&mut self) -> (r: Result<Value, Error>)
        requires
            old(self)@.wf(),
        ensures
            step_ok(old(self)@, final(self)@, r),
    {
        let nl = self.layers.len();
        if nl > 0 {
            let top = self.layers[nl - 1];
            if let Layer::List(t, rem) = top {
                if rem <= 0 {
                    self.layers.pop();
                    proof {
                        assert(self@.layers =~= old(self)@.layers.drop_last());
                    }
                    return Ok(Value::ListEnd);
                }
                self.layers.pop();
                self.layers.push(Layer::List(t, rem - 1));
                proof {
                    assert(self@.layers =~= old(self)@.layers.drop_last().push(
                        Layer::List(t, (rem - 1) as i32),
                    ));
                }
                return self.read_payload(t, None);
            }
        }
        // Compound scope or the root: read one tag byte. No byte here is the
        // only benign end of input.
        if self.pos >= self.data.len() {
            return Err(Error::EOF);
        }
        let code = self.data[self.pos];
        self.pos = self.pos + 1;
        let t = match u8_to_tag(code) {
            Ok(t) => t,
            Err(e) => {
                return Err(e);
            },
        };
        if let Tag::End = t {
            if self.layers.len() > 0 {
                self.layers.pop();
                proof {
                    assert(self@.layers =~= old(self)@.layers.drop_last());
                }
                return Ok(Value::CompoundEnd);
            }
            return Err(Error::InvalidTag(0));
        }
        let name = match self.read_size_prefixed_string() {
            Ok(s) => s,
            Err(e) => {
                return Err(e);
            },
        };
        self.read_payload(t, Some(name))
    }
}

/// How many elements a layer still owes: a pending list's remaining count.
pub open spec fn layer_pending(l: Layer) -> nat {
    match l {
        Layer::List(_, r) => if r > 0 {
            r as nat
        } else {
            0
        },
        Layer::Compound => 0,
    }
}

/// 1 for a compound layer, 0 for a list layer.
pub open spec fn layer_compound(l: Layer) -> nat {
    match l {
        Layer::List(_, _) => 0,
        Layer::Compound => 1,
    }
}

/// The total number of elements the open lists still owe.
pub open spec fn pending_sum(ls: Seq<Layer>) -> nat
    decreases ls.len(),
{
    if ls.len() == 0 {
        0
    } else {
        pending_sum(ls.drop_last()) + layer_pending(ls.last())
    }
}

/// How many of the open layers are compounds.
pub open spec fn compound_count(ls: Seq<Layer>) -> nat
    decreases ls.len(),
{
    if ls.len() == 0 {
        0
    } else {
        compound_count(ls.drop_last()) + layer_compound(ls.last())
    }
}

pub proof fn lemma_counts_push(ls: Seq<Layer>, x: Layer)
    ensures
        pending_sum(ls.push(x)) == pending_sum(ls) + layer_pending(x),
        compound_count(ls.push(x)) == compound_count(ls) + layer_compound(x),
{
    assert(ls.push(x).drop_last() =~= ls);
    assert(ls.push(x).last() == x);
}

/// What an emitting payload decode does to the model: the position advances,
/// except that opening a compound only pushes its layer.
proof fn lemma_payload_emit(t: Tag, name: Option<Seq<char>>, m: ParserModel)
    requires
        m.wf(),
        spec_payload(t, name, m) is Emit,
    ensures
        ({
            let st = spec_payload(t, name, m);
            let next = st->next;
            let v = st->v;
            &&& next.wf()
            &&& next.input == m.input
            &&& (t is Compound ==> next.pos == m.pos && next.layers == m.layers.push(
                Layer::Compound,
            ) && v is Compound)
            &&& (t is List ==> next.pos > m.pos && next.layers.len() == m.layers.len() + 1
                && next.layers.drop_last() == m.layers && v is List)
            &&& (!(t is Compound) && !(t is List) ==> next.pos > m.pos && next.layers == m.layers
                && !(v is Compound) && !(v is CompoundEnd) && !(v is List))
        }),
{
    let st = spec_payload(t, name, m);
    let next = st->next;
    match t {
        Tag::List => {
            assert(next.layers.drop_last() =~= m.layers);
        },
        Tag::String => {
            lemma_be_uint_bound(m.input, m.pos, 2);
        },
        _ => {},
    }
}

/// Every emitted value strictly shrinks the lexicographic measure (bytes
/// left, elements owed, open layers), and moves the compound-layer count in
/// step with the `Compound` and `CompoundEnd` values.
pub proof fn lemma_step_decreases(m: ParserModel)
    requires
        m.wf(),
        spec_step(m) is Emit,
    ensures
        ({
            let st = spec_step(m);
            let next = st->next;
            let v = st->v;
            &&& next.wf()
            &&& next.input == m.input
            &&& (next.remaining() < m.remaining() || (next.remaining() == m.remaining()
                && pending_sum(next.layers) < pending_sum(m.layers)) || (next.remaining()
                == m.remaining() && pending_sum(next.layers) == pending_sum(m.layers)
                && next.layers.len() < m.layers.len()))
            &&& (v is Compound ==> compound_count(next.layers) == compound_count(m.layers) + 1)
            &&& (v is CompoundEnd ==> compound_count(m.layers) == compound_count(next.layers) + 1)
            &&& (!(v is Compound) && !(v is CompoundEnd) ==> compound_count(next.layers)
                == compound_count(m.layers))
        }),
{
    let st = spec_step(m);
    let next = st->next;
    if m.layers.len() > 0 && m.layers.last() is List {
        let t = m.layers.last()->List_0;
        let r = m.layers.last()->List_1;
        if r <= 0 {
            // ListEnd: one layer popped, nothing owed by it.
            assert(pending_sum(m.layers) == pending_sum(m.layers.drop_last()));
            assert(compound_count(m.layers) == compound_count(m.layers.drop_last()));
        } else {
            let ls2 = m.layers.drop_last().push(Layer::List(t, (r - 1) as i32));
            let m2 = ParserModel { layers: ls2, ..m };
            lemma_counts_push(m.layers.drop_last(), Layer::List(t, (r - 1) as i32));
            assert(pending_sum(ls2) + 1 == pending_sum(m.layers));
            assert(compound_count(ls2) == compound_count(m.layers));
            lemma_payload_emit(t, None, m2);
            if t is Compound {
                lemma_counts_push(ls2, Layer::Compound);
            } else if t is List {
                lemma_counts_push(next.layers.drop_last(), next.layers.last());
                assert(next.layers.drop_last().push(next.layers.last()) =~= next.layers);
            }
        }
    } else {
        // Compound scope or the root: a tag byte was read.
        let code = m.input[m.pos];
        match spec_tag_of(code) {
            Some(t) => {
                if t is End {
                    assert(pending_sum(m.layers) == pending_sum(m.layers.drop_last()));
                    assert(compound_count(m.layers) == compound_count(m.layers.drop_last()) + 1);
                } else {
                    match spec_read_string(m.input, m.pos + 1) {
                        StrRead::Str { chars, end } => {
                            lemma_be_uint_bound(m.input, m.pos + 1, 2);
                            assert(m.pos + 3 <= end <= m.input.len());
                            let m2 = ParserModel { pos: end, ..m };
                            assert(m2.wf());
                            lemma_payload_emit(t, Some(chars), m2);
                            if t is Compound {
                                lemma_counts_push(m.layers, Layer::Compound);
                            } else if t is List {
                                lemma_counts_push(next.layers.drop_last(), next.layers.last());
                                assert(next.layers.drop_last().push(next.layers.last())
                                    =~= next.layers);
                            }
                        },
                        _ => {},
                    }
                }
            },
            None => {},
        }
    }
}

/// The error `Parser::next` returns for a non-emitting step.
pub open spec fn step_err(st: Step) -> Error {
    match st {
        Step::Emit { v, next } => arbitrary(),
        Step::Eof => Error::EOF,
        Step::Truncated => Error::IO(IoError::UnexpectedEof),
        Step::BadTag { code } => Error::InvalidTag(code),
        Step::BadName => Error::InvalidName,
    }
}

/// Where `skip_compound` ends: the state just past the matching
/// `CompoundEnd`, or the first error on the way.
pub ghost enum SkipResult {
    Done(ParserModel),
    Fail(Error),
}

/// What `skip_compound` does from state `m` with `depth` compounds open:
/// values are consumed, `Compound` deepening and `CompoundEnd` closing, until
/// the depth reaches zero.
pub open spec fn spec_skip(m: ParserModel, depth: int) -> SkipResult
    decreases m.remaining(), pending_sum(m.layers), m.layers.len(),
    when m.wf() && depth >= 1
    via spec_skip_decreases
{
    match spec_step(m) {
        Step::Emit { v, next } => {
            let d2 = if v is Compound {
                depth + 1
            } else if v is CompoundEnd {
                depth - 1
            } else {
                depth
            };
            if d2 == 0 {
                SkipResult::Done(next)
            } else {
                spec_skip(next, d2)
            }
        },
        st => SkipResult::Fail(step_err(st)),
    }
}

#[via_fn]
proof fn spec_skip_decreases(m: ParserModel, depth: int) {
    if m.wf() && spec_step(m) is Emit {
        lemma_step_decreases(m);
    }
}

/// Where `find_compound` ends: the state just past the first compound of the
/// sought name, or the first error on the way.
pub ghost enum FindCompound {
    Found(ParserModel),
    Fail(Error),
}

/// What `find_compound` does from state `m`: values are consumed until a
/// `Compound` whose name equals `name` is emitted.
pub open spec fn spec_find_compound(m: ParserModel, name: Option<Seq<char>>) -> FindCompound
    decreases m.remaining(), pending_sum(m.layers), m.layers.len(),
    when m.wf()
    via spec_find_compound_decreases
{
    match spec_step(m) {
        Step::Emit { v, next } => if v matches SpecValue::Compound(n) && n == name {
            FindCompound::Found(next)
        } else {
            spec_find_compound(next, name)
        },
        st => FindCompound::Fail(step_err(st)),
    }
}

#[via_fn]
proof fn spec_find_compound_decreases(m: ParserModel, name: Option<Seq<char>>) {
    if m.wf() && spec_step(m) is Emit {
        lemma_step_decreases(m);
    }
}

/// Where `find_list` ends: the state just past the first list of the sought
/// name together with its declared count, or the first error on the way.
pub ghost enum FindList {
    Found { m: ParserModel, count: i32 },
    Fail(Error),
}

/// What `find_list` does from state `m`: values are consumed until a `List`
/// whose name equals `name` is emitted.
pub open spec fn spec_find_list(m: ParserModel, name: Option<Seq<char>>) -> FindList
    decreases m.remaining(), pending_sum(m.layers), m.layers.len(),
    when m.wf()
    via spec_find_list_decreases
{
    match spec_step(m) {
        Step::Emit { v, next } => match v {
            SpecValue::List(n, t, c) => if n == name {
                FindList::Found { m: next, count: c }
            } else {
                spec_find_list(next, name)
            },
            _ => spec_find_list(next, name),
        },
        st => FindList::Fail(step_err(st)),
    }
}

#[via_fn]
proof fn spec_find_list_decreases(m: ParserModel, name: Option<Seq<char>>) {
    if m.wf() && spec_step(m) is Emit {
        lemma_step_decreases(m);
    }
}

/// Character-for-character string equality, decided on the UTF-8 bytes.
fn str_eq(a: &str, b: &str) -> (r: bool)
    ensures
        r == (a@ == b@),
{
    let ab = a.as_bytes();
    let bb = b.as_bytes();
    proof {
        vstd::utf8::encode_utf8_decode_utf8(a@);
        vstd::utf8::encode_utf8_decode_utf8(b@);
    }
    if ab.len() != bb.len() {
        return false;
    }
    let n = ab.len();
    let mut i: usize = 0;
    while i < n
        invariant
            i <= n,
            n == ab@.len() == bb@.len(),
            ab@ == vstd::utf8::encode_utf8(a@),
            bb@ == vstd::utf8::encode_utf8(b@),
            forall|j: int| 0 <= j < i ==> ab@[j] == bb@[j],
        decreases n - i,
    {
        if ab[i] != bb[i] {
            proof {
                vstd::utf8::encode_utf8_decode_utf8(a@);
                vstd::utf8::encode_utf8_decode_utf8(b@);
            }
            return false;
        }
        i = i + 1;
    }
    proof {
        assert(ab@ =~= bb@);
        vstd::utf8::encode_utf8_decode_utf8(a@);
        vstd::utf8::encode_utf8_decode_utf8(b@);
    }
    true
}

/// The character sequence an optional borrowed name stands for.
pub open spec fn view_opt_name(name: Option<&str>) -> Option<Seq<char>> {
    match name {
        Some(s) => Some(s@),
        None => None,
    }
}

/// Whether the value's optional name equals the sought one.
fn name_matches(n: &Name, name: Option<&str>) -> (r: bool)
    ensures
        r == (spec_name(*n) == view_opt_name(name)),
{
    match (n, name) {
        (Some(s), Some(q)) => str_eq(s.as_str(), q),
        (None, None) => true,
        _ => false,
    }
}

/// Consume values until the compound that the parser is positioned inside is
/// closed: each `Compound` deepens by one, each `CompoundEnd` closes one, and
/// the call returns just past the `CompoundEnd` that closes the first. Other
/// values are discarded; the first error is returned as it stands.
pub fn skip_compound(parser: &mut Parser) -> (r: Result<(), Error>)
    requires
        old(parser)@.wf(),
    ensures
        final(parser)@.input == old(parser)@.input,
        final(parser)@.wf(),
        match spec_skip(old(parser)@, 1) {
            SkipResult::Done(m2) => r is Ok && final(parser)@ == m2,
            SkipResult::Fail(e) => r == Err::<(), Error>(e),
        },
{
    let mut depth: u128 = 1;
    loop
        invariant
            parser@.wf(),
            parser@.input == old(parser)@.input,
            1 <= depth,
            depth <= 1 + compound_count(parser@.layers),
            spec_skip(old(parser)@, 1) == spec_skip(parser@, depth as int),
        decreases parser@.remaining(), pending_sum(parser@.layers), parser@.layers.len(),
    {
        let ghost pre = parser@;
        let value = match parser.next() {
            Ok(v) => v,
            Err(e) => {
                return Err(e);
            },
        };
        proof {
            lemma_step_decreases(pre);
        }
        match value {
            Value::CompoundEnd => {
                if depth == 1 {
                    return Ok(());
                }
                depth = depth - 1;
            },
            Value::Compound(_) => {
                let _cap = parser.layer_count();
                proof {
                    assert(compound_count(parser@.layers) <= parser@.layers.len()) by {
                        lemma_compound_count_le_len(parser@.layers);
                    }
                }
                depth = depth + 1;
            },
            _ => {},
        }
    }
}

proof fn lemma_compound_count_le_len(ls: Seq<Layer>)
    ensures
        compound_count(ls) <= ls.len(),
    decreases ls.len(),
{
    if ls.len() > 0 {
        lemma_compound_count_le_len(ls.drop_last());
    }
}

/// Consume values until a `Compound` with the given name is emitted; the
/// parser is left just inside it. The first error is returned as it stands.
pub fn find_compound(parser: &mut Parser, name: Option<&str>) -> (r: Result<(), Error>)
    requires
        old(parser)@.wf(),
    ensures
        final(parser)@.input == old(parser)@.input,
        final(parser)@.wf(),
        match spec_find_compound(old(parser)@, view_opt_name(name)) {
            FindCompound::Found(m2) => r is Ok && final(parser)@ == m2,
            FindCompound::Fail(e) => r == Err::<(), Error>(e),
        },
{
    loop
        invariant
            parser@.wf(),
            parser@.input == old(parser)@.input,
            spec_find_compound(old(parser)@, view_opt_name(name)) == spec_find_compound(
                parser@,
                view_opt_name(name),
            ),
        decreases parser@.remaining(), pending_sum(parser@.layers), parser@.layers.len(),
    {
        let ghost pre = parser@;
        let value = match parser.next() {
            Ok(v) => v,
            Err(e) => {
                return Err(e);
            },
        };
        proof {
            lemma_step_decreases(pre);
        }
        match value {
            Value::Compound(n) => {
                if name_matches(&n, name) {
                    return Ok(());
                }
            },
            _ => {},
        }
    }
}

/// Consume values until a `List` with the given name is emitted; the parser
/// is left before its first element. Returns the list's declared count as a
/// non-negative size (a non-positive declared count gives zero). The first
/// error is returned as it stands.
pub fn find_list(parser: &mut Parser, name: Option<&str>) -> (r: Result<usize, Error>)
    requires
        old(parser)@.wf(),
    ensures
        final(parser)@.input == old(parser)@.input,
        final(parser)@.wf(),
        match spec_find_list(old(parser)@, view_opt_name(name)) {
            FindList::Found { m, count } => (r matches Ok(c) && c == if count > 0 {
                count as usize
            } else {
                0
            } && final(parser)@ == m),
            FindList::Fail(e) => r == Err::<usize, Error>(e),
        },
{
    loop
        invariant
            parser@.wf(),
            parser@.input == old(parser)@.input,
            spec_find_list(old(parser)@, view_opt_name(name)) == spec_find_list(
                parser@,
                view_opt_name(name),
            ),
        decreases parser@.remaining(), pending_sum(parser@.layers), parser@.layers.len(),
    {
        let ghost pre = parser@;
        let value = match parser.next() {
            Ok(v) => v,
            Err(e) => {
                return Err(e);
            },
        };
        proof {
            lemma_step_decreases(pre);
        }
        match value {
            Value::List(n, _, size) => {
                if name_matches(&n, name) {
                    if size > 0 {
                        return Ok(size as usize);
                    }
                    return Ok(0);
                }
            },
            _ => {},
        }
    }
}

/// Past the clean end of the stream the parser is inert: a step that yields
/// `EOF` leaves the state unchanged, so the next step yields `EOF` again —
/// and so on for every later call.
pub proof fn lemma_eof_idempotent(pre: ParserModel, post: ParserModel, r: Result<Value, Error>)
    requires
        step_ok(pre, post, r),
        spec_step(pre) is Eof,
    ensures
        r == Err::<Value, Error>(Error::EOF),
        post == pre,
        spec_step(post) is Eof,
{
}

impl Parser {
    /// How many container layers are currently open.
    fn layer_count(&self) -> (r: usize)
        ensures
            r == self@.layers.len(),
    {
        self.layers.len()
    }
}


} // verus!
