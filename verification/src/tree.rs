//! The mathematical model of an NBT document: a tree of payloads, its wire
//! encoding, and its pre-order traversal.
//!
//! The central theorem, `lemma_parse_document`, proves that running the
//! parser's step function over the encoding of any well-formed tree emits
//! exactly the tree's pre-order traversal — each `Compound` closed by its one
//! `CompoundEnd`, each list's declared count of elements followed by
//! `ListEnd` — with an empty layer stack and a clean `EOF` at the end.

use vstd::prelude::*;
use crate::bytes::{
    enc_be, lemma_be_uint_of_enc, lemma_enc_be_len, lemma_pow256_values, pow256, to_signed,
};
use crate::nbt::{
    Layer, ParserModel, SpecValue, Step, StrRead, spec_payload, spec_read_string, spec_step,
    spec_tag_of, Tag, tag_code,
};
use vstd::utf8::{decode_utf8, valid_utf8};

verus! {

broadcast use vstd::seq::axiom_seq_index_decreases;

/// One payload of an NBT tree. Strings and names are carried as their UTF-8
/// bytes; floats as their IEEE-754 bit patterns.
pub ghost enum NbtPayload {
    Byte(i8),
    Short(i16),
    Int(i32),
    Long(i64),
    Float(u32),
    Double(u64),
    ByteArray(Seq<i8>),
    Str(Seq<u8>),
    List(Tag, Seq<NbtPayload>),
    Compound(Seq<Entry>),
    IntArray(Seq<i32>),
    LongArray(Seq<i64>),
}

/// One named child of a compound.
pub ghost struct Entry {
    pub name: Seq<u8>,
    pub payload: NbtPayload,
}

/// The tag a payload is written with.
pub open spec fn tag_of_payload(p: NbtPayload) -> Tag {
    match p {
        NbtPayload::Byte(_) => Tag::Byte,
        NbtPayload::Short(_) => Tag::Short,
        NbtPayload::Int(_) => Tag::Int,
        NbtPayload::Long(_) => Tag::Long,
        NbtPayload::Float(_) => Tag::Float,
        NbtPayload::Double(_) => Tag::Double,
        NbtPayload::ByteArray(_) => Tag::ByteArray,
        NbtPayload::Str(_) => Tag::String,
        NbtPayload::List(_, _) => Tag::List,
        NbtPayload::Compound(_) => Tag::Compound,
        NbtPayload::IntArray(_) => Tag::IntArray,
        NbtPayload::LongArray(_) => Tag::LongArray,
    }
}

/// Reinterpret the signed `n`-byte value `v` as unsigned: the inverse of
/// `to_signed`.
pub open spec fn to_unsigned(v: int, n: nat) -> int {
    if v < 0 {
        v + pow256(n)
    } else {
        v
    }
}

/// A name or string a valid encoder can write: its byte count fits the
/// 16-bit length prefix and it is valid UTF-8.
pub open spec fn valid_name(nm: Seq<u8>) -> bool {
    nm.len() < 0x10000 && valid_utf8(nm)
}

/// A tree a valid encoder can write: string and array lengths fit their
/// prefixes, list elements all carry the list's element tag, and a
/// non-empty list's element tag is not `End`.
pub open spec fn valid_payload(p: NbtPayload) -> bool
    decreases p, 0int, 0int,
{
    match p {
        NbtPayload::Byte(_) => true,
        NbtPayload::Short(_) => true,
        NbtPayload::Int(_) => true,
        NbtPayload::Long(_) => true,
        NbtPayload::Float(_) => true,
        NbtPayload::Double(_) => true,
        NbtPayload::ByteArray(es) => es.len() <= 0x7fffffff,
        NbtPayload::Str(sb) => valid_name(sb),
        NbtPayload::List(t, es) => {
            &&& es.len() <= 0x7fffffff
            &&& (es.len() > 0 ==> !(t is End))
            &&& valid_items(es, t, 0)
        },
        NbtPayload::Compound(entries) => valid_entries(entries, 0),
        NbtPayload::IntArray(es) => es.len() <= 0x7fffffff,
        NbtPayload::LongArray(es) => es.len() <= 0x7fffffff,
    }
}

/// Every element from index `i` on is valid and carries tag `t`.
pub open spec fn valid_items(es: Seq<NbtPayload>, t: Tag, i: int) -> bool
    decreases es, es.len() - i, 1int,
{
    if i < 0 || i >= es.len() {
        true
    } else {
        &&& tag_of_payload(es[i]) == t
        &&& valid_payload(es[i])
        &&& valid_items(es, t, i + 1)
    }
}

/// Every entry from index `i` on has a valid name and a valid payload.
pub open spec fn valid_entries(entries: Seq<Entry>, i: int) -> bool
    decreases entries, entries.len() - i, 1int,
{
    if i < 0 || i >= entries.len() {
        true
    } else {
        &&& valid_name(entries[i].name)
        &&& valid_payload(entries[i].payload)
        &&& valid_entries(entries, i + 1)
    }
}

/// The encoding of a length-prefixed string: a big-endian 16-bit byte count,
/// then the bytes.
pub open spec fn enc_name(nm: Seq<u8>) -> Seq<u8> {
    enc_be(nm.len() as int, 2) + nm
}

/// The flat bytes of an array of `n`-byte big-endian values.
pub open spec fn enc_elems(vals: Seq<int>, n: nat) -> Seq<u8> {
    Seq::new(n * vals.len(), |k: int| enc_be(vals[k / n as int], n)[k % n as int])
}

/// The wire bytes of a payload body (what follows the tag byte and name).
pub open spec fn enc_payload(p: NbtPayload) -> Seq<u8>
    decreases p, 0int, 0int,
{
    match p {
        NbtPayload::Byte(v) => enc_be(to_unsigned(v as int, 1), 1),
        NbtPayload::Short(v) => enc_be(to_unsigned(v as int, 2), 2),
        NbtPayload::Int(v) => enc_be(to_unsigned(v as int, 4), 4),
        NbtPayload::Long(v) => enc_be(to_unsigned(v as int, 8), 8),
        NbtPayload::Float(b) => enc_be(b as int, 4),
        NbtPayload::Double(b) => enc_be(b as int, 8),
        NbtPayload::ByteArray(es) => enc_be(es.len() as int, 4) + enc_elems(
            es.map_values(|v: i8| to_unsigned(v as int, 1)),
            1,
        ),
        NbtPayload::Str(sb) => enc_name(sb),
        NbtPayload::List(t, es) => seq![tag_code(t)] + enc_be(es.len() as int, 4) + enc_items(
            es,
            0,
        ),
        NbtPayload::Compound(entries) => enc_entries(entries, 0) + seq![0u8],
        NbtPayload::IntArray(es) => enc_be(es.len() as int, 4) + enc_elems(
            es.map_values(|v: i32| to_unsigned(v as int, 4)),
            4,
        ),
        NbtPayload::LongArray(es) => enc_be(es.len() as int, 4) + enc_elems(
            es.map_values(|v: i64| to_unsigned(v as int, 8)),
            8,
        ),
    }
}

/// The wire bytes of list elements from index `i` on.
pub open spec fn enc_items(es: Seq<NbtPayload>, i: int) -> Seq<u8>
    decreases es, es.len() - i, 1int,
{
    if i < 0 || i >= es.len() {
        Seq::empty()
    } else {
        enc_payload(es[i]) + enc_items(es, i + 1)
    }
}

/// The wire bytes of compound entries from index `i` on (without the
/// closing End byte).
pub open spec fn enc_entries(entries: Seq<Entry>, i: int) -> Seq<u8>
    decreases entries, entries.len() - i, 1int,
{
    if i < 0 || i >= entries.len() {
        Seq::empty()
    } else {
        seq![tag_code(tag_of_payload(entries[i].payload))] + enc_name(entries[i].name)
            + enc_payload(entries[i].payload) + enc_entries(entries, i + 1)
    }
}

/// The value the parser emits when it opens payload `p` under `name`.
pub open spec fn open_value(p: NbtPayload, name: Option<Seq<char>>) -> SpecValue {
    match p {
        NbtPayload::Byte(v) => SpecValue::Byte(name, v),
        NbtPayload::Short(v) => SpecValue::Short(name, v),
        NbtPayload::Int(v) => SpecValue::Int(name, v),
        NbtPayload::Long(v) => SpecValue::Long(name, v),
        NbtPayload::Float(b) => SpecValue::Float(name, b),
        NbtPayload::Double(b) => SpecValue::Double(name, b),
        NbtPayload::ByteArray(es) => SpecValue::ByteArray(name, es),
        NbtPayload::Str(sb) => SpecValue::String(name, decode_utf8(sb)),
        NbtPayload::List(t, es) => SpecValue::List(name, t, es.len() as i32),
        NbtPayload::Compound(_) => SpecValue::Compound(name),
        NbtPayload::IntArray(es) => SpecValue::IntArray(name, es),
        NbtPayload::LongArray(es) => SpecValue::LongArray(name, es),
    }
}

/// The values the parser emits after the opening value of `p`: nothing for a
/// leaf, the elements then `ListEnd` for a list, the named children then
/// `CompoundEnd` for a compound.
pub open spec fn flat_payload(p: NbtPayload) -> Seq<SpecValue>
    decreases p, 0int, 0int,
{
    match p {
        NbtPayload::List(t, es) => flat_items(es, 0) + seq![SpecValue::ListEnd],
        NbtPayload::Compound(entries) => flat_entries(entries, 0) + seq![SpecValue::CompoundEnd],
        _ => Seq::empty(),
    }
}

/// The values of list elements from index `i` on: each element's opening
/// value (unnamed) then its own contents.
pub open spec fn flat_items(es: Seq<NbtPayload>, i: int) -> Seq<SpecValue>
    decreases es, es.len() - i, 1int,
{
    if i < 0 || i >= es.len() {
        Seq::empty()
    } else {
        seq![open_value(es[i], None)] + flat_payload(es[i]) + flat_items(es, i + 1)
    }
}

/// The values of compound entries from index `i` on: each entry's opening
/// value, named with the decoding of its name bytes, then its own contents.
pub open spec fn flat_entries(entries: Seq<Entry>, i: int) -> Seq<SpecValue>
    decreases entries, entries.len() - i, 1int,
{
    if i < 0 || i >= entries.len() {
        Seq::empty()
    } else {
        seq![open_value(entries[i].payload, Some(decode_utf8(entries[i].name)))] + flat_payload(
            entries[i].payload,
        ) + flat_entries(entries, i + 1)
    }
}

/// The parser, stepped from state `m`, emits exactly the values `out` and
/// stands in state `m2`.
pub open spec fn emits(m: ParserModel, out: Seq<SpecValue>, m2: ParserModel) -> bool
    decreases out.len(),
{
    if out.len() == 0 {
        m2 == m
    } else {
        match spec_step(m) {
            Step::Emit { v, next } => v == out[0] && emits(next, out.drop_first(), m2),
            _ => false,
        }
    }
}

pub proof fn lemma_emits_concat(m: ParserModel, a: Seq<SpecValue>, m1: ParserModel, b: Seq<
    SpecValue,
>, m2: ParserModel)
    requires
        emits(m, a, m1),
        emits(m1, b, m2),
    ensures
        emits(m, a + b, m2),
    decreases a.len(),
{
    if a.len() == 0 {
        assert(a + b =~= b);
    } else {
        match spec_step(m) {
            Step::Emit { v, next } => {
                assert((a + b).drop_first() =~= a.drop_first() + b);
                lemma_emits_concat(next, a.drop_first(), m1, b, m2);
                assert((a + b)[0] == a[0]);
            },
            _ => {
                assert(false);
            },
        }
    }
}

pub proof fn lemma_emits_one(m: ParserModel, v: SpecValue, m2: ParserModel)
    requires
        spec_step(m) == (Step::Emit { v, next: m2 }),
    ensures
        emits(m, seq![v], m2),
{
    assert(seq![v].drop_first() =~= Seq::<SpecValue>::empty());
    assert(emits(m2, seq![v].drop_first(), m2));
}

/// Round trip of the two's-complement reinterpretations.
pub proof fn lemma_signed_round(v: int, n: nat)
    requires
        n >= 1,
        -(pow256(n) / 2) <= v < pow256(n) / 2,
    ensures
        0 <= to_unsigned(v, n) < pow256(n),
        to_signed(to_unsigned(v, n), n) == v,
{
    crate::bytes::lemma_pow256_pos((n - 1) as nat);
    assert(pow256(n) == 256 * pow256((n - 1) as nat));
    assert(pow256(n) / 2 * 2 == pow256(n)) by (nonlinear_arith)
        requires
            pow256(n) == 256 * pow256((n - 1) as nat),
    ;
}

/// The code byte of a tag decodes back to the tag.
pub proof fn lemma_tag_code_inverse(t: Tag)
    ensures
        spec_tag_of(tag_code(t)) == Some(t),
{
}

pub proof fn lemma_enc_name_len(nm: Seq<u8>)
    ensures
        enc_name(nm).len() == 2 + nm.len(),
{
    lemma_enc_be_len(nm.len() as int, 2);
}

/// A length that fits the signed 32-bit count reads back as itself.
proof fn lemma_count_identity(len: int)
    requires
        0 <= len <= 0x7fffffff,
    ensures
        to_signed(len, 4) == len,
        len < pow256(4),
{
    lemma_pow256_values();
}

/// Block `j` of an array of `n`-byte values is that value's encoding.
proof fn lemma_enc_elems_block(vals: Seq<int>, n: nat, j: int)
    requires
        n >= 1,
        0 <= j < vals.len(),
    ensures
        n * j + n <= enc_elems(vals, n).len(),
        enc_elems(vals, n).subrange(n * j, n * j + n) =~= enc_be(vals[j], n),
{
    lemma_enc_be_len(vals[j], n);
    assert(n * j + n <= n * vals.len()) by (nonlinear_arith)
        requires
            n >= 1,
            0 <= j < vals.len(),
    ;
    assert forall|i: int| 0 <= i < n implies #[trigger] enc_elems(vals, n).subrange(
        n * j,
        n * j + n,
    )[i] == enc_be(vals[j], n)[i] by {
        assert((n * j + i) / n as int == j && (n * j + i) % n as int == i) by (nonlinear_arith)
            requires
                n >= 1,
                0 <= i < n,
                0 <= j,
        ;
    }
}


/// One byte of a range whose contents are known.
proof fn lemma_bytes_at(s: Seq<u8>, pos: int, e: Seq<u8>, k: int)
    requires
        0 <= pos,
        pos + e.len() <= s.len(),
        s.subrange(pos, pos + e.len()) == e,
        0 <= k < e.len(),
    ensures
        s[pos + k] == e[k],
{
    assert(s.subrange(pos, pos + e.len())[k] == e[k]);
}

/// Decoding the payload bytes of `p` at `m.pos` emits its opening value and
/// then, step by step, the whole of its contents, ending just past the
/// encoding with the layer stack as it was.
#[verifier::rlimit(80)]
proof fn lemma_parse_payload(p: NbtPayload, name: Option<Seq<char>>, m: ParserModel)
    requires
        m.wf(),
        valid_payload(p),
        m.pos + enc_payload(p).len() <= m.input.len(),
        m.input.subrange(m.pos, m.pos + enc_payload(p).len()) == enc_payload(p),
    ensures
        ({
            let st = spec_payload(tag_of_payload(p), name, m);
            let m_end = ParserModel {
                input: m.input,
                pos: m.pos + enc_payload(p).len(),
                layers: m.layers,
            };
            &&& st is Emit
            &&& st->v == open_value(p, name)
            &&& emits(st->next, flat_payload(p), m_end)
        }),
    decreases p, 0int, 2int,
{
    lemma_pow256_values();
    let pe = enc_payload(p);
    let m_end = ParserModel { input: m.input, pos: m.pos + pe.len(), layers: m.layers };
    match p {
        NbtPayload::Byte(v) => {
            lemma_signed_round(v as int, 1);
            lemma_enc_be_len(to_unsigned(v as int, 1), 1);
            lemma_be_uint_of_enc(m.input, m.pos, to_unsigned(v as int, 1), 1);
        },
        NbtPayload::Short(v) => {
            lemma_signed_round(v as int, 2);
            lemma_enc_be_len(to_unsigned(v as int, 2), 2);
            lemma_be_uint_of_enc(m.input, m.pos, to_unsigned(v as int, 2), 2);
        },
        NbtPayload::Int(v) => {
            lemma_signed_round(v as int, 4);
            lemma_enc_be_len(to_unsigned(v as int, 4), 4);
            lemma_be_uint_of_enc(m.input, m.pos, to_unsigned(v as int, 4), 4);
        },
        NbtPayload::Long(v) => {
            lemma_signed_round(v as int, 8);
            lemma_enc_be_len(to_unsigned(v as int, 8), 8);
            lemma_be_uint_of_enc(m.input, m.pos, to_unsigned(v as int, 8), 8);
        },
        NbtPayload::Float(b) => {
            lemma_enc_be_len(b as int, 4);
            lemma_be_uint_of_enc(m.input, m.pos, b as int, 4);
        },
        NbtPayload::Double(b) => {
            lemma_enc_be_len(b as int, 8);
            lemma_be_uint_of_enc(m.input, m.pos, b as int, 8);
        },
        NbtPayload::Str(sb) => {
            lemma_enc_name_len(sb);
            lemma_enc_be_len(sb.len() as int, 2);
            assert(m.input.subrange(m.pos, m.pos + 2) =~= enc_be(sb.len() as int, 2)) by {
                assert forall|k: int| 0 <= k < 2 implies #[trigger] m.input.subrange(
                    m.pos,
                    m.pos + 2,
                )[k] == enc_be(sb.len() as int, 2)[k] by {
                    lemma_bytes_at(m.input, m.pos, enc_payload(p), k);
                }
            }
            lemma_be_uint_of_enc(m.input, m.pos, sb.len() as int, 2);
            assert(m.input.subrange(m.pos + 2, m.pos + 2 + sb.len()) =~= sb) by {
                assert forall|k: int| 0 <= k < sb.len() implies #[trigger] m.input.subrange(
                    m.pos + 2,
                    m.pos + 2 + sb.len(),
                )[k] == sb[k] by {
                    lemma_bytes_at(m.input, m.pos, enc_payload(p), 2 + k);
                }
            }
        },
        NbtPayload::ByteArray(es) => {
            let vals = es.map_values(|v: i8| to_unsigned(v as int, 1));
            lemma_enc_be_len(es.len() as int, 4);
            lemma_count_identity(es.len() as int);
            assert(m.input.subrange(m.pos, m.pos + 4) =~= enc_be(es.len() as int, 4)) by {
                assert forall|k: int| 0 <= k < 4 implies #[trigger] m.input.subrange(
                    m.pos,
                    m.pos + 4,
                )[k] == enc_be(es.len() as int, 4)[k] by {
                    lemma_bytes_at(m.input, m.pos, enc_payload(p), k);
                }
            }
            lemma_be_uint_of_enc(m.input, m.pos, es.len() as int, 4);
            let st = spec_payload(Tag::ByteArray, name, m);
            assert(st is Emit);
            assert forall|j: int| 0 <= j < es.len() implies #[trigger] st->v->ByteArray_1[j]
                == es[j] by {
                lemma_signed_round(es[j] as int, 1);
                lemma_enc_elems_block(vals, 1, j);
                reveal_with_fuel(enc_be, 2);
                assert(enc_elems(vals, 1)[j] == enc_be(vals[j], 1)[0]);
                lemma_bytes_at(m.input, m.pos, pe, 4 + j);
                assert(pe[4 + j] == enc_elems(vals, 1)[j]);
            }
            assert(st->v->ByteArray_1 =~= es);
        },
        NbtPayload::IntArray(es) => {
            let vals = es.map_values(|v: i32| to_unsigned(v as int, 4));
            lemma_enc_be_len(es.len() as int, 4);
            lemma_count_identity(es.len() as int);
            assert(m.input.subrange(m.pos, m.pos + 4) =~= enc_be(es.len() as int, 4)) by {
                assert forall|k: int| 0 <= k < 4 implies #[trigger] m.input.subrange(
                    m.pos,
                    m.pos + 4,
                )[k] == enc_be(es.len() as int, 4)[k] by {
                    lemma_bytes_at(m.input, m.pos, enc_payload(p), k);
                }
            }
            lemma_be_uint_of_enc(m.input, m.pos, es.len() as int, 4);
            let st = spec_payload(Tag::IntArray, name, m);
            assert(st is Emit);
            assert forall|j: int| 0 <= j < es.len() implies #[trigger] st->v->IntArray_1[j]
                == es[j] by {
                lemma_signed_round(es[j] as int, 4);
                lemma_enc_elems_block(vals, 4, j);
                lemma_enc_be_len(vals[j], 4);
                assert(m.input.subrange(m.pos + 4 + 4 * j, m.pos + 4 + 4 * j + 4) =~= enc_be(
                    vals[j],
                    4,
                )) by {
                    assert forall|i: int| 0 <= i < 4 implies #[trigger] m.input.subrange(
                        m.pos + 4 + 4 * j,
                        m.pos + 4 + 4 * j + 4,
                    )[i] == enc_be(vals[j], 4)[i] by {
                        lemma_bytes_at(m.input, m.pos, pe, 4 + 4 * j + i);
                        assert(pe[4 + 4 * j + i] == enc_elems(vals, 4)[4 * j + i]);
                        assert(enc_elems(vals, 4)[4 * j + i] == enc_elems(vals, 4).subrange(
                            4 * j,
                            4 * j + 4,
                        )[i]);
                    }
                }
                lemma_be_uint_of_enc(m.input, m.pos + 4 + 4 * j, vals[j], 4);
            }
            assert(st->v->IntArray_1 =~= es);
        },
        NbtPayload::LongArray(es) => {
            let vals = es.map_values(|v: i64| to_unsigned(v as int, 8));
            lemma_enc_be_len(es.len() as int, 4);
            lemma_count_identity(es.len() as int);
            assert(m.input.subrange(m.pos, m.pos + 4) =~= enc_be(es.len() as int, 4)) by {
                assert forall|k: int| 0 <= k < 4 implies #[trigger] m.input.subrange(
                    m.pos,
                    m.pos + 4,
                )[k] == enc_be(es.len() as int, 4)[k] by {
                    lemma_bytes_at(m.input, m.pos, enc_payload(p), k);
                }
            }
            lemma_be_uint_of_enc(m.input, m.pos, es.len() as int, 4);
            let st = spec_payload(Tag::LongArray, name, m);
            assert(st is Emit);
            assert forall|j: int| 0 <= j < es.len() implies #[trigger] st->v->LongArray_1[j]
                == es[j] by {
                lemma_signed_round(es[j] as int, 8);
                lemma_enc_elems_block(vals, 8, j);
                lemma_enc_be_len(vals[j], 8);
                assert(m.input.subrange(m.pos + 4 + 8 * j, m.pos + 4 + 8 * j + 8) =~= enc_be(
                    vals[j],
                    8,
                )) by {
                    assert forall|i: int| 0 <= i < 8 implies #[trigger] m.input.subrange(
                        m.pos + 4 + 8 * j,
                        m.pos + 4 + 8 * j + 8,
                    )[i] == enc_be(vals[j], 8)[i] by {
                        lemma_bytes_at(m.input, m.pos, pe, 4 + 8 * j + i);
                        assert(pe[4 + 8 * j + i] == enc_elems(vals, 8)[8 * j + i]);
                        assert(enc_elems(vals, 8)[8 * j + i] == enc_elems(vals, 8).subrange(
                            8 * j,
                            8 * j + 8,
                        )[i]);
                    }
                }
                lemma_be_uint_of_enc(m.input, m.pos + 4 + 8 * j, vals[j], 8);
            }
            assert(st->v->LongArray_1 =~= es);
        },
        NbtPayload::List(t, es) => {
            lemma_tag_code_inverse(t);
            lemma_enc_be_len(es.len() as int, 4);
            lemma_count_identity(es.len() as int);
            lemma_bytes_at(m.input, m.pos, pe, 0);
            assert(m.input.subrange(m.pos + 1, m.pos + 5) =~= enc_be(es.len() as int, 4)) by {
                assert forall|k: int| 0 <= k < 4 implies #[trigger] m.input.subrange(
                    m.pos + 1,
                    m.pos + 5,
                )[k] == enc_be(es.len() as int, 4)[k] by {
                    lemma_bytes_at(m.input, m.pos, pe, 1 + k);
                }
            }
            lemma_be_uint_of_enc(m.input, m.pos + 1, es.len() as int, 4);
            let st = spec_payload(Tag::List, name, m);
            assert(st is Emit);
            let next = st->next;
            assert(next.layers == m.layers.push(Layer::List(t, es.len() as i32)));
            assert(m.input.subrange(m.pos + 5, m.pos + 5 + enc_items(es, 0).len()) =~= enc_items(
                es,
                0,
            )) by {
                assert forall|k: int| 0 <= k < enc_items(es, 0).len() implies #[trigger] m.input
                    .subrange(m.pos + 5, m.pos + 5 + enc_items(es, 0).len())[k] == enc_items(
                    es,
                    0,
                )[k] by {
                    lemma_bytes_at(m.input, m.pos, pe, 5 + k);
                }
            }
            lemma_parse_items(es, t, 0, next);
            assert(next.layers.drop_last() =~= m.layers);
        },
        NbtPayload::Compound(entries) => {
            let st = spec_payload(Tag::Compound, name, m);
            let next = st->next;
            assert(next.layers == m.layers.push(Layer::Compound));
            lemma_parse_entries(entries, 0, next);
            assert(next.layers.drop_last() =~= m.layers);
        },
    }
}

/// Parsing list elements from index `i` on — the enclosing list layer owing
/// exactly those elements — emits each element then `ListEnd`, popping the
/// layer and ending just past their encodings.
proof fn lemma_parse_items(es: Seq<NbtPayload>, t: Tag, i: int, m: ParserModel)
    requires
        m.wf(),
        es.len() <= 0x7fffffff,
        es.len() > 0 ==> !(t is End),
        valid_items(es, t, i),
        0 <= i <= es.len(),
        m.layers.len() > 0,
        m.layers.last() == Layer::List(t, (es.len() - i) as i32),
        m.pos + enc_items(es, i).len() <= m.input.len(),
        m.input.subrange(m.pos, m.pos + enc_items(es, i).len()) == enc_items(es, i),
    ensures
        emits(
            m,
            flat_items(es, i) + seq![SpecValue::ListEnd],
            ParserModel {
                input: m.input,
                pos: m.pos + enc_items(es, i).len(),
                layers: m.layers.drop_last(),
            },
        ),
    decreases es, es.len() - i, 3int,
{
    if i == es.len() {
        let m_end = ParserModel { layers: m.layers.drop_last(), ..m };
        lemma_emits_one(m, SpecValue::ListEnd, m_end);
        assert(flat_items(es, i) + seq![SpecValue::ListEnd] =~= seq![SpecValue::ListEnd]);
    } else {
        let p0 = es[i];
        let e0 = enc_payload(p0);
        let rest = enc_items(es, i);
        assert(rest == e0 + enc_items(es, i + 1));
        let ls2 = m.layers.drop_last().push(Layer::List(t, (es.len() - i - 1) as i32));
        let m2 = ParserModel { layers: ls2, ..m };
        assert(m2.input.subrange(m2.pos, m2.pos + e0.len()) =~= e0) by {
            assert forall|k: int| 0 <= k < e0.len() implies #[trigger] m2.input.subrange(
                m2.pos,
                m2.pos + e0.len(),
            )[k] == e0[k] by {
                lemma_bytes_at(m.input, m.pos, rest, k);
            }
        }
        assert(decreases_to!(es => es[i]));
        lemma_parse_payload(p0, None, m2);
        let st = spec_payload(t, None, m2);
        let mm = st->next;
        assert(spec_step(m) == Step::Emit { v: open_value(p0, None), next: mm });
        lemma_emits_one(m, open_value(p0, None), mm);
        let m_mid = ParserModel { input: m.input, pos: m.pos + e0.len(), layers: ls2 };
        lemma_emits_concat(
            m,
            seq![open_value(p0, None)],
            mm,
            flat_payload(p0),
            m_mid,
        );
        assert(m_mid.input.subrange(m_mid.pos, m_mid.pos + enc_items(es, i + 1).len())
            =~= enc_items(es, i + 1)) by {
            assert forall|k: int| 0 <= k < enc_items(es, i + 1).len() implies #[trigger] m_mid.input
                .subrange(m_mid.pos, m_mid.pos + enc_items(es, i + 1).len())[k] == enc_items(
                es,
                i + 1,
            )[k] by {
                lemma_bytes_at(m.input, m.pos, rest, e0.len() + k);
            }
        }
        assert(ls2.last() == Layer::List(t, (es.len() - (i + 1)) as i32));
        lemma_parse_items(es, t, i + 1, m_mid);
        let m_end = ParserModel {
            input: m.input,
            pos: m.pos + rest.len(),
            layers: m.layers.drop_last(),
        };
        assert(ls2.drop_last() =~= m.layers.drop_last());
        lemma_emits_concat(
            m,
            seq![open_value(p0, None)] + flat_payload(p0),
            m_mid,
            flat_items(es, i + 1) + seq![SpecValue::ListEnd],
            m_end,
        );
        assert((seq![open_value(p0, None)] + flat_payload(p0)) + (flat_items(es, i + 1)
            + seq![SpecValue::ListEnd]) =~= flat_items(es, i) + seq![SpecValue::ListEnd]);
    }
}

/// Parsing compound entries from index `i` on — inside the enclosing
/// compound's layer — emits each named child then `CompoundEnd` at the End
/// byte, popping the layer.
proof fn lemma_parse_entries(entries: Seq<Entry>, i: int, m: ParserModel)
    requires
        m.wf(),
        valid_entries(entries, i),
        0 <= i <= entries.len(),
        m.layers.len() > 0,
        m.layers.last() is Compound,
        m.pos + enc_entries(entries, i).len() + 1 <= m.input.len(),
        m.input.subrange(m.pos, m.pos + enc_entries(entries, i).len() + 1) == enc_entries(
            entries,
            i,
        ) + seq![0u8],
    ensures
        emits(
            m,
            flat_entries(entries, i) + seq![SpecValue::CompoundEnd],
            ParserModel {
                input: m.input,
                pos: m.pos + enc_entries(entries, i).len() + 1,
                layers: m.layers.drop_last(),
            },
        ),
    decreases entries, entries.len() - i, 3int,
{
    let rest = enc_entries(entries, i) + seq![0u8];
    if i == entries.len() {
        lemma_bytes_at(m.input, m.pos, rest, 0);
        assert(rest[0] == 0u8);
        let m_end = ParserModel { pos: m.pos + 1, layers: m.layers.drop_last(), ..m };
        lemma_emits_one(m, SpecValue::CompoundEnd, m_end);
        assert(flat_entries(entries, i) + seq![SpecValue::CompoundEnd]
            =~= seq![SpecValue::CompoundEnd]);
    } else {
        let nm = entries[i].name;
        let p0 = entries[i].payload;
        assert(decreases_to!(entries => entries[i]));
        assert(decreases_to!(entries[i] => entries[i].payload));
        let e0 = seq![tag_code(tag_of_payload(p0))] + enc_name(nm) + enc_payload(p0);
        lemma_enc_name_len(nm);
        assert(enc_entries(entries, i) == e0 + enc_entries(entries, i + 1)) by {
            assert(enc_entries(entries, i) =~= e0 + enc_entries(entries, i + 1));
        }
        assert(m.input.subrange(m.pos, m.pos + e0.len()) =~= e0) by {
            assert forall|k: int| 0 <= k < e0.len() implies #[trigger] m.input.subrange(
                m.pos,
                m.pos + e0.len(),
            )[k] == e0[k] by {
                lemma_bytes_at(m.input, m.pos, rest, k);
            }
        }
        lemma_parse_named(nm, p0, m);
        let m_mid = ParserModel { input: m.input, pos: m.pos + e0.len(), layers: m.layers };
        assert(m_mid.input.subrange(m_mid.pos, m_mid.pos + enc_entries(entries, i + 1).len() + 1)
            =~= enc_entries(entries, i + 1) + seq![0u8]) by {
            assert forall|k: int| 0 <= k < enc_entries(entries, i + 1).len() + 1 implies
                #[trigger] m_mid.input.subrange(
                m_mid.pos,
                m_mid.pos + enc_entries(entries, i + 1).len() + 1,
            )[k] == (enc_entries(entries, i + 1) + seq![0u8])[k] by {
                lemma_bytes_at(m.input, m.pos, rest, e0.len() + k);
            }
        }
        lemma_parse_entries(entries, i + 1, m_mid);
        let m_end = ParserModel {
            input: m.input,
            pos: m.pos + enc_entries(entries, i).len() + 1,
            layers: m.layers.drop_last(),
        };
        lemma_emits_concat(
            m,
            seq![open_value(p0, Some(decode_utf8(nm)))] + flat_payload(p0),
            m_mid,
            flat_entries(entries, i + 1) + seq![SpecValue::CompoundEnd],
            m_end,
        );
        assert((seq![open_value(p0, Some(decode_utf8(nm)))] + flat_payload(p0)) + (flat_entries(
            entries,
            i + 1,
        ) + seq![SpecValue::CompoundEnd]) =~= flat_entries(entries, i)
            + seq![SpecValue::CompoundEnd]);
    }
}

/// One named value at compound or root scope: the tag byte, the name and the
/// payload are read, emitting the opening value and then the payload's
/// contents, ending just past the encoding with the layer stack as it was.
proof fn lemma_parse_named(nm: Seq<u8>, p: NbtPayload, m: ParserModel)
    requires
        m.wf(),
        valid_name(nm),
        valid_payload(p),
        m.layers.len() == 0 || m.layers.last() is Compound,
        m.pos + 1 + enc_name(nm).len() + enc_payload(p).len() <= m.input.len(),
        m.input.subrange(m.pos, m.pos + 1 + enc_name(nm).len() + enc_payload(p).len())
            == seq![tag_code(tag_of_payload(p))] + enc_name(nm) + enc_payload(p),
    ensures
        emits(
            m,
            seq![open_value(p, Some(decode_utf8(nm)))] + flat_payload(p),
            ParserModel {
                input: m.input,
                pos: m.pos + 1 + enc_name(nm).len() + enc_payload(p).len(),
                layers: m.layers,
            },
        ),
    decreases p, 0int, 4int,
{
    lemma_pow256_values();
    lemma_enc_name_len(nm);
    lemma_enc_be_len(nm.len() as int, 2);
    let t = tag_of_payload(p);
    let e = seq![tag_code(t)] + enc_name(nm) + enc_payload(p);
    lemma_bytes_at(m.input, m.pos, e, 0);
    assert(e[0] == tag_code(t));
    lemma_tag_code_inverse(t);
    assert(!(t is End));
    // The name: its two length bytes, then its bytes, valid UTF-8.
    assert(m.input.subrange(m.pos + 1, m.pos + 3) =~= enc_be(nm.len() as int, 2)) by {
        assert forall|k: int| 0 <= k < 2 implies #[trigger] m.input.subrange(
            m.pos + 1,
            m.pos + 3,
        )[k] == enc_be(nm.len() as int, 2)[k] by {
            lemma_bytes_at(m.input, m.pos, e, 1 + k);
        }
    }
    lemma_be_uint_of_enc(m.input, m.pos + 1, nm.len() as int, 2);
    assert(m.input.subrange(m.pos + 3, m.pos + 3 + nm.len()) =~= nm) by {
        assert forall|k: int| 0 <= k < nm.len() implies #[trigger] m.input.subrange(
            m.pos + 3,
            m.pos + 3 + nm.len(),
        )[k] == nm[k] by {
            lemma_bytes_at(m.input, m.pos, e, 3 + k);
        }
    }
    assert(spec_read_string(m.input, m.pos + 1) == (StrRead::Str {
        chars: decode_utf8(nm),
        end: m.pos + 3 + nm.len(),
    }));
    let m2 = ParserModel { pos: m.pos + 3 + nm.len(), ..m };
    assert(m2.input.subrange(m2.pos, m2.pos + enc_payload(p).len()) =~= enc_payload(p)) by {
        assert forall|k: int| 0 <= k < enc_payload(p).len() implies #[trigger] m2.input.subrange(
            m2.pos,
            m2.pos + enc_payload(p).len(),
        )[k] == enc_payload(p)[k] by {
            lemma_bytes_at(m.input, m.pos, e, 3 + nm.len() + k);
        }
    }
    lemma_parse_payload(p, Some(decode_utf8(nm)), m2);
    let st = spec_payload(t, Some(decode_utf8(nm)), m2);
    let mm = st->next;
    assert(spec_step(m) == Step::Emit { v: open_value(p, Some(decode_utf8(nm))), next: mm });
    lemma_emits_one(m, open_value(p, Some(decode_utf8(nm))), mm);
    let m_end = ParserModel {
        input: m.input,
        pos: m.pos + 1 + enc_name(nm).len() + enc_payload(p).len(),
        layers: m.layers,
    };
    lemma_emits_concat(
        m,
        seq![open_value(p, Some(decode_utf8(nm)))],
        mm,
        flat_payload(p),
        m_end,
    );
}

/// Parsing the encoding of a well-formed named tree emits exactly its
/// pre-order traversal: the root's opening value, then its contents in
/// document order, every compound closed by exactly one `CompoundEnd` and
/// every list's elements followed by `ListEnd`. The layer stack is then
/// empty, and the next step — and so every later one — is the clean `EOF`.
pub proof fn lemma_parse_document(nm: Seq<u8>, p: NbtPayload, m: ParserModel)
    requires
        m.pos == 0,
        m.layers == Seq::<Layer>::empty(),
        valid_name(nm),
        valid_payload(p),
        m.input == seq![tag_code(tag_of_payload(p))] + enc_name(nm) + enc_payload(p),
    ensures
        ({
            let m_end = ParserModel {
                input: m.input,
                pos: m.input.len() as int,
                layers: Seq::<Layer>::empty(),
            };
            &&& emits(m, seq![open_value(p, Some(decode_utf8(nm)))] + flat_payload(p), m_end)
            &&& spec_step(m_end) is Eof
        }),
{
    assert(m.input.subrange(0, m.input.len() as int) =~= m.input);
    lemma_parse_named(nm, p, m);
}

/// The nesting a value opens or closes: +1 for a `Compound` or `List`
/// opening, -1 for its terminator, 0 for a leaf value.
pub open spec fn depth_delta(v: SpecValue) -> int {
    match v {
        SpecValue::Compound(_) => 1,
        SpecValue::List(_, _, _) => 1,
        SpecValue::CompoundEnd => -1,
        SpecValue::ListEnd => -1,
        _ => 0,
    }
}

/// The net nesting of a value sequence.
pub open spec fn depth_sum(s: Seq<SpecValue>) -> int
    decreases s.len(),
{
    if s.len() == 0 {
        0
    } else {
        depth_delta(s[0]) + depth_sum(s.drop_first())
    }
}

proof fn lemma_depth_sum_concat(a: Seq<SpecValue>, b: Seq<SpecValue>)
    ensures
        depth_sum(a + b) == depth_sum(a) + depth_sum(b),
    decreases a.len(),
{
    if a.len() == 0 {
        assert(a + b =~= b);
    } else {
        assert((a + b).drop_first() =~= a.drop_first() + b);
        lemma_depth_sum_concat(a.drop_first(), b);
    }
}

/// In a tree's traversal, openings and terminators balance: each `Compound`
/// is matched by exactly one `CompoundEnd` and each `List` by one `ListEnd`,
/// so a payload's opening value and its contents sum to nesting zero.
pub proof fn lemma_traversal_balanced(p: NbtPayload, name: Option<Seq<char>>)
    ensures
        depth_sum(seq![open_value(p, name)] + flat_payload(p)) == 0,
        depth_sum(flat_payload(p)) == -depth_delta(open_value(p, name)),
    decreases p, 0int, 2int,
{
    let whole = seq![open_value(p, name)] + flat_payload(p);
    assert(whole.drop_first() =~= flat_payload(p));
    match p {
        NbtPayload::List(t, es) => {
            lemma_items_balanced(es, 0);
            lemma_depth_sum_concat(flat_items(es, 0), seq![SpecValue::ListEnd]);
            assert(depth_sum(seq![SpecValue::ListEnd]) == -1) by {
                reveal_with_fuel(depth_sum, 2);
                assert(seq![SpecValue::ListEnd].drop_first() =~= Seq::<SpecValue>::empty());
            }
        },
        NbtPayload::Compound(entries) => {
            lemma_entries_balanced(entries, 0);
            lemma_depth_sum_concat(flat_entries(entries, 0), seq![SpecValue::CompoundEnd]);
            assert(depth_sum(seq![SpecValue::CompoundEnd]) == -1) by {
                reveal_with_fuel(depth_sum, 2);
                assert(seq![SpecValue::CompoundEnd].drop_first() =~= Seq::<SpecValue>::empty());
            }
        },
        _ => {},
    }
    assert(whole.len() == 1 + flat_payload(p).len());
    assert(whole[0] == open_value(p, name));
    assert(depth_sum(whole) == depth_delta(whole[0]) + depth_sum(whole.drop_first()));
    assert(depth_sum(whole.drop_first()) == depth_sum(flat_payload(p)));
}

/// List elements from index `i` on sum to nesting zero.
proof fn lemma_items_balanced(es: Seq<NbtPayload>, i: int)
    requires
        0 <= i <= es.len(),
    ensures
        depth_sum(flat_items(es, i)) == 0,
    decreases es, es.len() - i, 3int,
{
    if i < es.len() {
        assert(decreases_to!(es => es[i]));
        lemma_traversal_balanced(es[i], None);
        lemma_items_balanced(es, i + 1);
        lemma_depth_sum_concat(
            seq![open_value(es[i], None)] + flat_payload(es[i]),
            flat_items(es, i + 1),
        );
        assert((seq![open_value(es[i], None)] + flat_payload(es[i])) + flat_items(es, i + 1)
            =~= flat_items(es, i));
    }
}

/// Compound entries from index `i` on sum to nesting zero.
proof fn lemma_entries_balanced(entries: Seq<Entry>, i: int)
    requires
        0 <= i <= entries.len(),
    ensures
        depth_sum(flat_entries(entries, i)) == 0,
    decreases entries, entries.len() - i, 3int,
{
    if i < entries.len() {
        let nm = Some(decode_utf8(entries[i].name));
        assert(decreases_to!(entries => entries[i]));
        assert(decreases_to!(entries[i] => entries[i].payload));
        lemma_traversal_balanced(entries[i].payload, nm);
        lemma_entries_balanced(entries, i + 1);
        lemma_depth_sum_concat(
            seq![open_value(entries[i].payload, nm)] + flat_payload(entries[i].payload),
            flat_entries(entries, i + 1),
        );
        assert((seq![open_value(entries[i].payload, nm)] + flat_payload(entries[i].payload))
            + flat_entries(entries, i + 1) =~= flat_entries(entries, i));
    }
}

} // verus!
