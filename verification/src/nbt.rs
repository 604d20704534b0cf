//! The generic tagged-value tree that chunk payloads are made of, with its
//! binary wire form: big-endian scalars, length-prefixed arrays and strings,
//! homogeneous lists, and name-keyed compounds terminated by an end marker.
use vstd::prelude::*;

verus! {

broadcast use vstd::seq::axiom_seq_index_decreases, vstd::std_specs::vec::group_vec_axioms;

/// Two's-complement byte of a signed 8-bit value.
pub open spec fn u8_rep(v: i8) -> u8 {
    if v >= 0 {
        v as u8
    } else {
        (v + 0x100) as u8
    }
}

/// Two's-complement value of a signed 16-bit value.
pub open spec fn u16_rep(v: i16) -> int {
    if v >= 0 {
        v as int
    } else {
        v + 0x10000
    }
}

/// Two's-complement value of a signed 32-bit value.
pub open spec fn u32_rep(v: i32) -> int {
    if v >= 0 {
        v as int
    } else {
        v + 0x1_0000_0000
    }
}

/// Two's-complement value of a signed 64-bit value.
pub open spec fn u64_rep(v: i64) -> int {
    if v >= 0 {
        v as int
    } else {
        v + 0x1_0000_0000_0000_0000
    }
}

/// Big-endian bytes of a value in `[0, 2^16)`.
pub open spec fn be2(n: int) -> Seq<u8> {
    seq![((n / 0x100) % 0x100) as u8, (n % 0x100) as u8]
}

/// Big-endian bytes of a value in `[0, 2^32)`.
pub open spec fn be4(n: int) -> Seq<u8> {
    seq![
        ((n / 0x100_0000) % 0x100) as u8,
        ((n / 0x1_0000) % 0x100) as u8,
        ((n / 0x100) % 0x100) as u8,
        (n % 0x100) as u8,
    ]
}

/// Big-endian bytes of a value in `[0, 2^64)`.
pub open spec fn be8(n: int) -> Seq<u8> {
    seq![
        ((n / 0x100_0000_0000_0000) % 0x100) as u8,
        ((n / 0x1_0000_0000_0000) % 0x100) as u8,
        ((n / 0x100_0000_0000) % 0x100) as u8,
        ((n / 0x1_0000_0000) % 0x100) as u8,
        ((n / 0x100_0000) % 0x100) as u8,
        ((n / 0x1_0000) % 0x100) as u8,
        ((n / 0x100) % 0x100) as u8,
        (n % 0x100) as u8,
    ]
}

/// Appends the two's-complement byte of `v`.
pub fn push_i8(out: &mut Vec<u8>, v: i8)
    ensures
        final(out)@ == old(out)@ + seq![u8_rep(v)],
{
    let b: u8 = if v >= 0 {
        v as u8
    } else {
        ((v as i16) + 0x100) as u8
    };
    out.push(b);
}

/// Appends the two big-endian bytes of a value in `[0, 2^16)`.
pub fn push_be2(out: &mut Vec<u8>, n: u32)
    requires
        n < 0x10000,
    ensures
        final(out)@ == old(out)@ + be2(n as int),
{
    out.push((n / 0x100) as u8);
    out.push((n % 0x100) as u8);
    assert(final(out)@ =~= old(out)@ + be2(n as int));
}

/// Appends the four big-endian bytes of a value in `[0, 2^32)`.
pub fn push_be4(out: &mut Vec<u8>, n: u64)
    requires
        n < 0x1_0000_0000,
    ensures
        final(out)@ == old(out)@ + be4(n as int),
{
    out.push(((n / 0x100_0000) % 0x100) as u8);
    out.push(((n / 0x1_0000) % 0x100) as u8);
    out.push(((n / 0x100) % 0x100) as u8);
    out.push((n % 0x100) as u8);
    assert(final(out)@ =~= old(out)@ + be4(n as int));
}

/// Appends the eight big-endian bytes of a value in `[0, 2^64)`.
pub fn push_be8(out: &mut Vec<u8>, n: u128)
    requires
        n < 0x1_0000_0000_0000_0000,
    ensures
        final(out)@ == old(out)@ + be8(n as int),
{
    out.push(((n / 0x100_0000_0000_0000) % 0x100) as u8);
    out.push(((n / 0x1_0000_0000_0000) % 0x100) as u8);
    out.push(((n / 0x100_0000_0000) % 0x100) as u8);
    out.push(((n / 0x1_0000_0000) % 0x100) as u8);
    out.push(((n / 0x100_0000) % 0x100) as u8);
    out.push(((n / 0x1_0000) % 0x100) as u8);
    out.push(((n / 0x100) % 0x100) as u8);
    out.push((n % 0x100) as u8);
    assert(final(out)@ =~= old(out)@ + be8(n as int));
}

/// Appends the big-endian two's-complement bytes of a signed 16-bit value.
pub fn push_i16(out: &mut Vec<u8>, v: i16)
    ensures
        final(out)@ == old(out)@ + be2(u16_rep(v)),
{
    let n: u32 = if v >= 0 {
        v as u32
    } else {
        ((v as i32) + 0x10000) as u32
    };
    push_be2(out, n);
}

/// Appends the big-endian two's-complement bytes of a signed 32-bit value.
pub fn push_i32(out: &mut Vec<u8>, v: i32)
    ensures
        final(out)@ == old(out)@ + be4(u32_rep(v)),
{
    let n: u64 = if v >= 0 {
        v as u64
    } else {
        ((v as i64) + 0x1_0000_0000) as u64
    };
    push_be4(out, n);
}

/// One node of the tagged-value tree. Floating-point payloads are carried
/// as their raw IEEE-754 bit patterns, which the codec never interprets.
#[derive(Debug, PartialEq)]
pub enum Nbt {
    Byte(i8),
    Short(i16),
    Int(i32),
    Long(i64),
    Float(u32),
    Double(u64),
    ByteArray(Vec<i8>),
    Text(Vec<u8>),
    List(Vec<Nbt>),
    Compound(Vec<(Vec<u8>, Nbt)>),
    IntArray(Vec<i32>),
    LongArray(Vec<i64>),
}

/// Wire tag of a tree node.
pub open spec fn tag_of(t: Nbt) -> u8 {
    match t {
        Nbt::Byte(_) => 1,
        Nbt::Short(_) => 2,
        Nbt::Int(_) => 3,
        Nbt::Long(_) => 4,
        Nbt::Float(_) => 5,
        Nbt::Double(_) => 6,
        Nbt::ByteArray(_) => 7,
        Nbt::Text(_) => 8,
        Nbt::List(_) => 9,
        Nbt::Compound(_) => 10,
        Nbt::IntArray(_) => 11,
        Nbt::LongArray(_) => 12,
    }
}

/// Wire tag of a list's elements: the first element's tag, or the end
/// marker for an empty list.
pub open spec fn elem_tag(items: Seq<Nbt>) -> u8 {
    if items.len() == 0 {
        0
    } else {
        tag_of(items[0])
    }
}

/// Two's-complement bytes of a signed byte sequence.
pub open spec fn bytes_rep(s: Seq<i8>) -> Seq<u8> {
    s.map_values(|b: i8| u8_rep(b))
}

/// Wire bytes of a node's payload (the tag byte itself is written by the
/// enclosing list or compound, or by the root header).
pub open spec fn payload(t: Nbt) -> Seq<u8>
    decreases t, 0int,
{
    match t {
        Nbt::Byte(v) => seq![u8_rep(v)],
        Nbt::Short(v) => be2(u16_rep(v)),
        Nbt::Int(v) => be4(u32_rep(v)),
        Nbt::Long(v) => be8(u64_rep(v)),
        Nbt::Float(bits) => be4(bits as int),
        Nbt::Double(bits) => be8(bits as int),
        Nbt::ByteArray(v) => be4(v@.len() as int) + bytes_rep(v@),
        Nbt::Text(v) => be2(v@.len() as int) + v@,
        Nbt::List(items) => seq![elem_tag(items@)] + be4(items@.len() as int) + payloads(
            items@,
        ),
        Nbt::Compound(entries) => entries_bytes(entries@) + seq![0u8],
        Nbt::IntArray(v) => be4(v@.len() as int) + ints_bytes(v@),
        Nbt::LongArray(v) => be4(v@.len() as int) + longs_bytes(v@),
    }
}

/// Concatenated payloads of a list's elements.
pub open spec fn payloads(items: Seq<Nbt>) -> Seq<u8>
    decreases items, 1int,
{
    if items.len() == 0 {
        Seq::empty()
    } else {
        payload(items[0]) + payloads(items.drop_first())
    }
}

/// Wire bytes of one named compound entry: tag, name length, name, payload.
pub open spec fn entry_bytes(name: Seq<u8>, t: Nbt) -> Seq<u8>
    decreases t, 2int,
{
    seq![tag_of(t)] + be2(name.len() as int) + name + payload(t)
}

/// Concatenated named entries of a compound, without the end marker.
pub open spec fn entries_bytes(entries: Seq<(Vec<u8>, Nbt)>) -> Seq<u8>
    decreases entries, 1int,
{
    if entries.len() == 0 {
        Seq::empty()
    } else {
        entry_bytes(entries[0].0@, entries[0].1) + entries_bytes(entries.drop_first())
    }
}

/// Concatenated big-endian bytes of the elements of an integer array.
pub open spec fn ints_bytes(items: Seq<i32>) -> Seq<u8>
    decreases items,
{
    if items.len() == 0 {
        Seq::empty()
    } else {
        be4(u32_rep(items[0])) + ints_bytes(items.drop_first())
    }
}

/// Concatenated big-endian bytes of the elements of a long array.
pub open spec fn longs_bytes(items: Seq<i64>) -> Seq<u8>
    decreases items,
{
    if items.len() == 0 {
        Seq::empty()
    } else {
        be8(u64_rep(items[0])) + longs_bytes(items.drop_first())
    }
}

/// A tree the wire form can carry: counts fit their length prefixes, lists
/// are homogeneous, and an empty list carries the end marker as element tag.
pub open spec fn wf(t: Nbt) -> bool
    decreases t,
{
    match t {
        Nbt::Byte(_) => true,
        Nbt::Short(_) => true,
        Nbt::Int(_) => true,
        Nbt::Long(_) => true,
        Nbt::Float(_) => true,
        Nbt::Double(_) => true,
        Nbt::ByteArray(v) => v@.len() < 0x8000_0000,
        Nbt::Text(v) => v@.len() < 0x10000,
        Nbt::List(items) => items@.len() < 0x8000_0000 && (forall|i: int|
            0 <= i < items@.len() ==> tag_of(#[trigger] items@[i]) == elem_tag(items@))
            && (forall|i: int| 0 <= i < items@.len() ==> wf(#[trigger] items@[i])),
        Nbt::Compound(entries) => (forall|i: int|
            0 <= i < entries@.len() ==> (#[trigger] entries@[i]).0@.len() < 0x10000)
            && (forall|i: int| 0 <= i < entries@.len() ==> wf((#[trigger] entries@[i]).1)),
        Nbt::IntArray(v) => v@.len() < 0x8000_0000,
        Nbt::LongArray(v) => v@.len() < 0x8000_0000,
    }
}

/// Wire bytes of a whole document: a named root node.
pub open spec fn root_bytes(name: Seq<u8>, t: Nbt) -> Seq<u8> {
    seq![tag_of(t)] + be2(name.len() as int) + name + payload(t)
}

/// Appends the big-endian two's-complement bytes of a signed 64-bit value.
pub fn push_i64(out: &mut Vec<u8>, v: i64)
    ensures
        final(out)@ == old(out)@ + be8(u64_rep(v)),
{
    let n: u128 = if v >= 0 {
        v as u128
    } else {
        ((v as i128) + 0x1_0000_0000_0000_0000) as u128
    };
    push_be8(out, n);
}

/// Extending a prefix of a list by one element appends that element's
/// payload bytes.
pub proof fn lemma_payloads_take(s: Seq<Nbt>, i: int)
    requires
        0 <= i < s.len(),
    ensures
        payloads(s.take(i + 1)) == payloads(s.take(i)) + payload(s[i]),
    decreases i,
{
    if i == 0 {
        assert(s.take(1).drop_first() =~= Seq::<Nbt>::empty());
        assert(s.take(0) =~= Seq::<Nbt>::empty());
        assert(payloads(s.take(1)) =~= payloads(s.take(0)) + payload(s[0]));
    } else {
        lemma_payloads_take(s.drop_first(), i - 1);
        assert(s.take(i + 1).drop_first() =~= s.drop_first().take(i));
        assert(s.take(i).drop_first() =~= s.drop_first().take(i - 1));
        assert(payloads(s.take(i + 1)) =~= payloads(s.take(i)) + payload(s[i]));
    }
}

/// Extending a prefix of a compound by one entry appends that entry's bytes.
pub proof fn lemma_entries_take(s: Seq<(Vec<u8>, Nbt)>, i: int)
    requires
        0 <= i < s.len(),
    ensures
        entries_bytes(s.take(i + 1)) == entries_bytes(s.take(i)) + entry_bytes(
            s[i].0@,
            s[i].1,
        ),
    decreases i,
{
    if i == 0 {
        assert(s.take(1).drop_first() =~= Seq::<(Vec<u8>, Nbt)>::empty());
        assert(s.take(0) =~= Seq::<(Vec<u8>, Nbt)>::empty());
        assert(entries_bytes(s.take(1)) =~= entries_bytes(s.take(0)) + entry_bytes(
            s[0].0@,
            s[0].1,
        ));
    } else {
        lemma_entries_take(s.drop_first(), i - 1);
        assert(s.take(i + 1).drop_first() =~= s.drop_first().take(i));
        assert(s.take(i).drop_first() =~= s.drop_first().take(i - 1));
        assert(entries_bytes(s.take(i + 1)) =~= entries_bytes(s.take(i)) + entry_bytes(
            s[i].0@,
            s[i].1,
        ));
    }
}

/// Extending a prefix of an integer array by one element appends its bytes.
pub proof fn lemma_ints_take(s: Seq<i32>, i: int)
    requires
        0 <= i < s.len(),
    ensures
        ints_bytes(s.take(i + 1)) == ints_bytes(s.take(i)) + be4(u32_rep(s[i])),
    decreases i,
{
    if i == 0 {
        assert(s.take(1).drop_first() =~= Seq::<i32>::empty());
        assert(s.take(0) =~= Seq::<i32>::empty());
        assert(ints_bytes(s.take(1)) =~= ints_bytes(s.take(0)) + be4(u32_rep(s[0])));
    } else {
        lemma_ints_take(s.drop_first(), i - 1);
        assert(s.take(i + 1).drop_first() =~= s.drop_first().take(i));
        assert(s.take(i).drop_first() =~= s.drop_first().take(i - 1));
        assert(ints_bytes(s.take(i + 1)) =~= ints_bytes(s.take(i)) + be4(u32_rep(s[i])));
    }
}

/// Extending a prefix of a long array by one element appends its bytes.
pub proof fn lemma_longs_take(s: Seq<i64>, i: int)
    requires
        0 <= i < s.len(),
    ensures
        longs_bytes(s.take(i + 1)) == longs_bytes(s.take(i)) + be8(u64_rep(s[i])),
    decreases i,
{
    if i == 0 {
        assert(s.take(1).drop_first() =~= Seq::<i64>::empty());
        assert(s.take(0) =~= Seq::<i64>::empty());
        assert(longs_bytes(s.take(1)) =~= longs_bytes(s.take(0)) + be8(u64_rep(s[0])));
    } else {
        lemma_longs_take(s.drop_first(), i - 1);
        assert(s.take(i + 1).drop_first() =~= s.drop_first().take(i));
        assert(s.take(i).drop_first() =~= s.drop_first().take(i - 1));
        assert(longs_bytes(s.take(i + 1)) =~= longs_bytes(s.take(i)) + be8(u64_rep(s[i])));
    }
}

impl Nbt {
    /// Wire tag of this node.
    pub fn tag(&self) -> (r: u8)
        ensures
            r == tag_of(*self),
    {
        match self {
            Nbt::Byte(_) => 1,
            Nbt::Short(_) => 2,
            Nbt::Int(_) => 3,
            Nbt::Long(_) => 4,
            Nbt::Float(_) => 5,
            Nbt::Double(_) => 6,
            Nbt::ByteArray(_) => 7,
            Nbt::Text(_) => 8,
            Nbt::List(_) => 9,
            Nbt::Compound(_) => 10,
            Nbt::IntArray(_) => 11,
            Nbt::LongArray(_) => 12,
        }
    }
}

/// Appends the raw bytes of a name or string payload.
pub(crate) fn push_bytes(out: &mut Vec<u8>, v: &Vec<u8>)
    ensures
        final(out)@ == old(out)@ + v@,
{
    let ghost base = out@;
    let mut i: usize = 0;
    while i < v.len()
        invariant
            i <= v@.len(),
            out@ == base + v@.take(i as int),
        decreases v@.len() - i,
    {
        out.push(v[i]);
        assert(base + v@.take(i + 1) =~= base + v@.take(i as int) + seq![v@[i as int]]);
        i += 1;
    }
    assert(v@.take(v@.len() as int) =~= v@);
}

/// Appends the wire payload of a well-formed tree node.
#[verifier::loop_isolation(false)]
pub fn encode_payload(t: &Nbt, out: &mut Vec<u8>)
    requires
        wf(*t),
    ensures
        final(out)@ == old(out)@ + payload(*t),
    decreases *t,
{
    match t {
        Nbt::Byte(v) => push_i8(out, *v),
        Nbt::Short(v) => push_i16(out, *v),
        Nbt::Int(v) => push_i32(out, *v),
        Nbt::Long(v) => push_i64(out, *v),
        Nbt::Float(bits) => push_be4(out, *bits as u64),
        Nbt::Double(bits) => push_be8(out, *bits as u128),
        Nbt::ByteArray(v) => {
            push_be4(out, v.len() as u64);
            let ghost base = out@;
            let mut i: usize = 0;
            while i < v.len()
                invariant
                    i <= v@.len(),
                    out@ == base + bytes_rep(v@.take(i as int)),
                decreases v@.len() - i,
            {
                push_i8(out, v[i]);
                assert(bytes_rep(v@.take(i + 1)) =~= bytes_rep(v@.take(i as int)) + seq![
                    u8_rep(v@[i as int]),
                ]);
                assert(base + bytes_rep(v@.take(i + 1)) =~= base + bytes_rep(
                    v@.take(i as int),
                ) + seq![u8_rep(v@[i as int])]);
                i += 1;
            }
            assert(v@.take(v@.len() as int) =~= v@);
            assert(final(out)@ =~= old(out)@ + payload(*t));
        },
        Nbt::Text(v) => {
            push_be2(out, v.len() as u32);
            push_bytes(out, v);
            assert(final(out)@ =~= old(out)@ + payload(*t));
        },
        Nbt::List(items) => {
            let et: u8 = if items.len() == 0 {
                0
            } else {
                items[0].tag()
            };
            out.push(et);
            push_be4(out, items.len() as u64);
            let ghost base = out@;
            assert(base == old(out)@ + seq![elem_tag(items@)] + be4(items@.len() as int));
            let mut i: usize = 0;
            while i < items.len()
                invariant
                    i <= items@.len(),
                    forall|j: int| 0 <= j < items@.len() ==> wf(#[trigger] items@[j]),
                    out@ == base + payloads(items@.take(i as int)),
                decreases items@.len() - i,
            {
                proof {
                    assert(decreases_to!(*t => *items));
                    assert(decreases_to!(*items => items@[i as int]));
                }
                encode_payload(&items[i], out);
                proof {
                    lemma_payloads_take(items@, i as int);
                    assert(base + payloads(items@.take(i + 1)) =~= base + payloads(
                        items@.take(i as int),
                    ) + payload(items@[i as int]));
                }
                i += 1;
            }
            assert(items@.take(items@.len() as int) =~= items@);
            assert(final(out)@ =~= old(out)@ + payload(*t));
        },
        Nbt::Compound(entries) => {
            let ghost base = out@;
            let mut i: usize = 0;
            while i < entries.len()
                invariant
                    i <= entries@.len(),
                    forall|j: int|
                        0 <= j < entries@.len() ==> (#[trigger] entries@[j]).0@.len()
                            < 0x10000,
                    forall|j: int| 0 <= j < entries@.len() ==> wf((#[trigger] entries@[j]).1),
                    out@ == base + entries_bytes(entries@.take(i as int)),
                decreases entries@.len() - i,
            {
                let ghost before = out@;
                let tb: u8 = entries[i].1.tag();
                out.push(tb);
                push_be2(out, entries[i].0.len() as u32);
                push_bytes(out, &entries[i].0);
                proof {
                    assert(decreases_to!(*t => *entries));
                    assert(decreases_to!(*entries => entries@[i as int]));
                    assert(decreases_to!(entries@[i as int] => entries@[i as int].1));
                }
                encode_payload(&entries[i].1, out);
                proof {
                    lemma_entries_take(entries@, i as int);
                    assert(out@ =~= before + entry_bytes(
                        entries@[i as int].0@,
                        entries@[i as int].1,
                    ));
                    assert(base + entries_bytes(entries@.take(i + 1)) =~= base
                        + entries_bytes(entries@.take(i as int)) + entry_bytes(
                        entries@[i as int].0@,
                        entries@[i as int].1,
                    ));
                }
                i += 1;
            }
            out.push(0);
            assert(entries@.take(entries@.len() as int) =~= entries@);
            assert(final(out)@ =~= old(out)@ + payload(*t));
        },
        Nbt::IntArray(v) => {
            push_be4(out, v.len() as u64);
            let ghost base = out@;
            let mut i: usize = 0;
            while i < v.len()
                invariant
                    i <= v@.len(),
                    out@ == base + ints_bytes(v@.take(i as int)),
                decreases v@.len() - i,
            {
                push_i32(out, v[i]);
                proof {
                    lemma_ints_take(v@, i as int);
                    assert(base + ints_bytes(v@.take(i + 1)) =~= base + ints_bytes(
                        v@.take(i as int),
                    ) + be4(u32_rep(v@[i as int])));
                }
                i += 1;
            }
            assert(v@.take(v@.len() as int) =~= v@);
            assert(final(out)@ =~= old(out)@ + payload(*t));
        },
        Nbt::LongArray(v) => {
            push_be4(out, v.len() as u64);
            let ghost base = out@;
            let mut i: usize = 0;
            while i < v.len()
                invariant
                    i <= v@.len(),
                    out@ == base + longs_bytes(v@.take(i as int)),
                decreases v@.len() - i,
            {
                push_i64(out, v[i]);
                proof {
                    lemma_longs_take(v@, i as int);
                    assert(base + longs_bytes(v@.take(i + 1)) =~= base + longs_bytes(
                        v@.take(i as int),
                    ) + be8(u64_rep(v@[i as int])));
                }
                i += 1;
            }
            assert(v@.take(v@.len() as int) =~= v@);
            assert(final(out)@ =~= old(out)@ + payload(*t));
        },
    }
}


/// Recovering the bytes of a 32-bit big-endian value by division.
proof fn lemma_be4_decompose(b0: u8, b1: u8, b2: u8, b3: u8, r: u64)
    by (bit_vector)
    requires
        r == b0 as u64 * 0x100_0000 + b1 as u64 * 0x1_0000 + b2 as u64 * 0x100
            + b3 as u64,
    ensures
        r < 0x1_0000_0000,
        r / 0x100_0000 % 0x100 == b0,
        r / 0x1_0000 % 0x100 == b1,
        r / 0x100 % 0x100 == b2,
        r % 0x100 == b3,
{
}

/// Recovering the bytes of a 64-bit big-endian value by division.
proof fn lemma_be8_decompose(b0: u8, b1: u8, b2: u8, b3: u8, b4: u8, b5: u8, b6: u8, b7: u8, r: u128)
    by (bit_vector)
    requires
        r == b0 as u128 * 0x100_0000_0000_0000 + b1 as u128 * 0x1_0000_0000_0000
            + b2 as u128 * 0x100_0000_0000 + b3 as u128 * 0x1_0000_0000 + b4 as u128
            * 0x100_0000 + b5 as u128 * 0x1_0000 + b6 as u128 * 0x100 + b7 as u128,
    ensures
        r < 0x1_0000_0000_0000_0000,
        r / 0x100_0000_0000_0000 % 0x100 == b0,
        r / 0x1_0000_0000_0000 % 0x100 == b1,
        r / 0x100_0000_0000 % 0x100 == b2,
        r / 0x1_0000_0000 % 0x100 == b3,
        r / 0x100_0000 % 0x100 == b4,
        r / 0x1_0000 % 0x100 == b5,
        r / 0x100 % 0x100 == b6,
        r % 0x100 == b7,
{
}

/// Every payload takes at least one wire byte.
pub proof fn lemma_payload_min(t: Nbt)
    ensures
        payload(t).len() >= 1,
{
}

/// Every wire tag is one of the twelve node tags.
pub proof fn lemma_tag_range(t: Nbt)
    ensures
        1 <= tag_of(t) <= 12,
{
}

/// A list's elements take at least one wire byte each.
pub proof fn lemma_payloads_min(items: Seq<Nbt>)
    ensures
        payloads(items).len() >= items.len(),
    decreases items,
{
    if items.len() > 0 {
        lemma_payload_min(items[0]);
        lemma_payloads_min(items.drop_first());
    }
}

/// A well-formed node of the given tag whose payload occupies the bytes
/// `b[pos..end]`.
pub open spec fn node_at(b: Seq<u8>, pos: int, tag: u8, t: Nbt, end: int) -> bool {
    &&& 0 <= pos <= end <= b.len()
    &&& tag_of(t) == tag
    &&& wf(t)
    &&& payload(t) == b.subrange(pos, end)
}

/// `count` well-formed elements of tag `et` whose concatenated payloads
/// occupy the bytes `b[pos..end]`.
pub open spec fn items_at(
    b: Seq<u8>,
    pos: int,
    et: u8,
    count: int,
    items: Seq<Nbt>,
    end: int,
) -> bool {
    &&& 0 <= pos <= end <= b.len()
    &&& items.len() == count
    &&& forall|k: int| 0 <= k < items.len() ==> tag_of(#[trigger] items[k]) == et
    &&& forall|k: int| 0 <= k < items.len() ==> wf(#[trigger] items[k])
    &&& payloads(items) == b.subrange(pos, end)
}

/// Well-formed named entries whose wire bytes, with the end marker,
/// occupy the bytes `b[pos..end]`.
pub open spec fn entries_at(
    b: Seq<u8>,
    pos: int,
    entries: Seq<(Vec<u8>, Nbt)>,
    end: int,
) -> bool {
    &&& 0 <= pos <= end <= b.len()
    &&& forall|k: int| 0 <= k < entries.len() ==> (#[trigger] entries[k]).0@.len() < 0x10000
    &&& forall|k: int| 0 <= k < entries.len() ==> wf((#[trigger] entries[k]).1)
    &&& entries_bytes(entries) + seq![0u8] == b.subrange(pos, end)
}

/// A well-formed compound document under the given root name whose wire
/// bytes occupy the prefix `b[0..end]`.
pub open spec fn root_at(b: Seq<u8>, name: Seq<u8>, t: Nbt, end: int) -> bool {
    &&& 0 <= end <= b.len()
    &&& t is Compound
    &&& wf(t)
    &&& name.len() < 0x10000
    &&& root_bytes(name, t) == b.subrange(0, end)
}

/// Two values below 2^16 with the same big-endian bytes are equal.
pub proof fn lemma_be2_inject(m: int, n: int)
    requires
        0 <= m < 0x10000,
        0 <= n < 0x10000,
        be2(m) == be2(n),
    ensures
        m == n,
{
    assert(be2(m)[0] == be2(n)[0] && be2(m)[1] == be2(n)[1]);
    assert(((m / 0x100) % 0x100) * 0x100 + (m % 0x100) == m) by (nonlinear_arith)
        requires
            0 <= m < 0x10000,
    ;
    assert(((n / 0x100) % 0x100) * 0x100 + (n % 0x100) == n) by (nonlinear_arith)
        requires
            0 <= n < 0x10000,
    ;
}

/// Two values below 2^32 with the same big-endian bytes are equal.
pub proof fn lemma_be4_inject(m: int, n: int)
    requires
        0 <= m < 0x1_0000_0000,
        0 <= n < 0x1_0000_0000,
        be4(m) == be4(n),
    ensures
        m == n,
{
    assert(be4(m)[0] == be4(n)[0] && be4(m)[1] == be4(n)[1] && be4(m)[2] == be4(n)[2]
        && be4(m)[3] == be4(n)[3]);
    assert(((m / 0x100_0000) % 0x100) * 0x100_0000 + ((m / 0x1_0000) % 0x100) * 0x1_0000
        + ((m / 0x100) % 0x100) * 0x100 + (m % 0x100) == m) by (nonlinear_arith)
        requires
            0 <= m < 0x1_0000_0000,
    ;
    assert(((n / 0x100_0000) % 0x100) * 0x100_0000 + ((n / 0x1_0000) % 0x100) * 0x1_0000
        + ((n / 0x100) % 0x100) * 0x100 + (n % 0x100) == n) by (nonlinear_arith)
        requires
            0 <= n < 0x1_0000_0000,
    ;
}

/// The wire form is self-delimiting: two well-formed nodes of one tag
/// whose payloads begin the same byte sequence take the same number of
/// bytes from it (and so encode the same bytes).
#[verifier::rlimit(60)]
pub proof fn lemma_node_extent(t1: Nbt, t2: Nbt, s: Seq<u8>, l1: int, l2: int)
    requires
        wf(t1),
        wf(t2),
        tag_of(t1) == tag_of(t2),
        0 <= l1 <= s.len(),
        0 <= l2 <= s.len(),
        payload(t1) == s.subrange(0, l1),
        payload(t2) == s.subrange(0, l2),
    ensures
        l1 == l2,
    decreases t1, 0int,
{
    assert(payload(t1).len() == l1);
    assert(payload(t2).len() == l2);
    match t1 {
        Nbt::Byte(_) => {},
        Nbt::Short(_) => {},
        Nbt::Int(_) => {},
        Nbt::Long(_) => {},
        Nbt::Float(_) => {},
        Nbt::Double(_) => {},
        Nbt::ByteArray(v1) => {
            let v2 = t2->ByteArray_0;
            let m = v1@.len() as int;
            let n = v2@.len() as int;
            assert forall|j: int| 0 <= j < 4 implies be4(m)[j] == be4(n)[j] by {
                assert(payload(t1)[j] == be4(m)[j]);
                assert(payload(t2)[j] == be4(n)[j]);
                assert(payload(t1)[j] == s[j]);
                assert(payload(t2)[j] == s[j]);
            }
            assert(be4(m) =~= be4(n));
            lemma_be4_inject(m, n);
        },
        Nbt::Text(v1) => {
            let v2 = t2->Text_0;
            let m = v1@.len() as int;
            let n = v2@.len() as int;
            assert forall|j: int| 0 <= j < 2 implies be2(m)[j] == be2(n)[j] by {
                assert(payload(t1)[j] == be2(m)[j]);
                assert(payload(t2)[j] == be2(n)[j]);
                assert(payload(t1)[j] == s[j]);
                assert(payload(t2)[j] == s[j]);
            }
            assert(be2(m) =~= be2(n));
            lemma_be2_inject(m, n);
        },
        Nbt::List(items1) => {
            let items2 = t2->List_0;
            let m = items1@.len() as int;
            let n = items2@.len() as int;
            assert forall|j: int| 0 <= j < 4 implies be4(m)[j] == be4(n)[j] by {
                assert(payload(t1)[1 + j] == be4(m)[j]);
                assert(payload(t2)[1 + j] == be4(n)[j]);
                assert(payload(t1)[1 + j] == s[1 + j]);
                assert(payload(t2)[1 + j] == s[1 + j]);
            }
            assert(be4(m) =~= be4(n));
            lemma_be4_inject(m, n);
            let q1 = l1 - 5;
            let q2 = l2 - 5;
            let s5 = s.skip(5);
            assert forall|j: int| 0 <= j < q1 implies payloads(items1@)[j] == s5[j] by {
                assert(payload(t1)[5 + j] == payloads(items1@)[j]);
                assert(payload(t1)[5 + j] == s[5 + j]);
            }
            assert forall|j: int| 0 <= j < q2 implies payloads(items2@)[j] == s5[j] by {
                assert(payload(t2)[5 + j] == payloads(items2@)[j]);
                assert(payload(t2)[5 + j] == s[5 + j]);
            }
            assert(payloads(items1@) =~= s5.subrange(0, q1));
            assert(payloads(items2@) =~= s5.subrange(0, q2));
            assert(payload(t1)[0] == s[0] && payload(t2)[0] == s[0]);
            assert(elem_tag(items1@) == elem_tag(items2@));
            assert forall|k: int| 0 <= k < items1@.len() implies tag_of(
                #[trigger] items1@[k],
            ) == tag_of(items2@[k]) by {
                assert(tag_of(items1@[k]) == elem_tag(items1@));
                assert(tag_of(items2@[k]) == elem_tag(items2@));
            }
            assert(decreases_to!(t1 => items1));
            assert(decreases_to!(items1 => items1@));
            lemma_items_extent(items1@, items2@, s5, q1, q2);
        },
        Nbt::Compound(entries1) => {
            let entries2 = t2->Compound_0;
            assert(entries_bytes(entries1@) + seq![0u8] =~= s.subrange(0, l1));
            assert(entries_bytes(entries2@) + seq![0u8] =~= s.subrange(0, l2));
            assert(decreases_to!(t1 => entries1));
            assert(decreases_to!(entries1 => entries1@));
            lemma_entries_correspond(entries1@, entries2@, s, l1, l2);
        },
        Nbt::IntArray(v1) => {
            let v2 = t2->IntArray_0;
            let m = v1@.len() as int;
            let n = v2@.len() as int;
            assert forall|j: int| 0 <= j < 4 implies be4(m)[j] == be4(n)[j] by {
                assert(payload(t1)[j] == be4(m)[j]);
                assert(payload(t2)[j] == be4(n)[j]);
                assert(payload(t1)[j] == s[j]);
                assert(payload(t2)[j] == s[j]);
            }
            assert(be4(m) =~= be4(n));
            lemma_be4_inject(m, n);
            lemma_ints_len(v1@);
            lemma_ints_len(v2@);
        },
        Nbt::LongArray(v1) => {
            let v2 = t2->LongArray_0;
            let m = v1@.len() as int;
            let n = v2@.len() as int;
            assert forall|j: int| 0 <= j < 4 implies be4(m)[j] == be4(n)[j] by {
                assert(payload(t1)[j] == be4(m)[j]);
                assert(payload(t2)[j] == be4(n)[j]);
                assert(payload(t1)[j] == s[j]);
                assert(payload(t2)[j] == s[j]);
            }
            assert(be4(m) =~= be4(n));
            lemma_be4_inject(m, n);
            lemma_longs_len(v1@);
            lemma_longs_len(v2@);
        },
    }
}

/// Length of an integer array's wire bytes.
pub proof fn lemma_ints_len(items: Seq<i32>)
    ensures
        ints_bytes(items).len() == 4 * items.len(),
    decreases items,
{
    if items.len() > 0 {
        lemma_ints_len(items.drop_first());
    }
}

/// Length of a long array's wire bytes.
pub proof fn lemma_longs_len(items: Seq<i64>)
    ensures
        longs_bytes(items).len() == 8 * items.len(),
    decreases items,
{
    if items.len() > 0 {
        lemma_longs_len(items.drop_first());
    }
}

/// Two equally long, pairwise equally tagged, well-formed element
/// sequences whose concatenated payloads begin the same byte sequence take
/// the same number of bytes from it.
#[verifier::rlimit(30)]
pub proof fn lemma_items_extent(i1: Seq<Nbt>, i2: Seq<Nbt>, s: Seq<u8>, l1: int, l2: int)
    requires
        i1.len() == i2.len(),
        forall|k: int| 0 <= k < i1.len() ==> wf(#[trigger] i1[k]),
        forall|k: int| 0 <= k < i2.len() ==> wf(#[trigger] i2[k]),
        forall|k: int| 0 <= k < i1.len() ==> tag_of(#[trigger] i1[k]) == tag_of(i2[k]),
        0 <= l1 <= s.len(),
        0 <= l2 <= s.len(),
        payloads(i1) == s.subrange(0, l1),
        payloads(i2) == s.subrange(0, l2),
    ensures
        l1 == l2,
    decreases i1, 1int,
{
    assert(payloads(i1).len() == l1);
    assert(payloads(i2).len() == l2);
    if i1.len() == 0 {
    } else {
        let p1 = payload(i1[0]).len() as int;
        let p2 = payload(i2[0]).len() as int;
        assert(payloads(i1) == payload(i1[0]) + payloads(i1.drop_first()));
        assert(payloads(i2) == payload(i2[0]) + payloads(i2.drop_first()));
        assert(p1 <= l1 && p2 <= l2);
        assert forall|j: int| 0 <= j < p1 implies payload(i1[0])[j] == s[j] by {
            assert(payloads(i1)[j] == payload(i1[0])[j]);
            assert(payloads(i1)[j] == s[j]);
        }
        assert forall|j: int| 0 <= j < p2 implies payload(i2[0])[j] == s[j] by {
            assert(payloads(i2)[j] == payload(i2[0])[j]);
            assert(payloads(i2)[j] == s[j]);
        }
        assert(payload(i1[0]) =~= s.subrange(0, p1));
        assert(payload(i2[0]) =~= s.subrange(0, p2));
        assert(decreases_to!(i1 => i1[0]));
        lemma_node_extent(i1[0], i2[0], s, p1, p2);
        let s1 = s.skip(p1);
        assert forall|j: int| 0 <= j < l1 - p1 implies payloads(i1.drop_first())[j]
            == s1[j] by {
            assert(payloads(i1)[p1 + j] == payloads(i1.drop_first())[j]);
            assert(payloads(i1)[p1 + j] == s[p1 + j]);
        }
        assert forall|j: int| 0 <= j < l2 - p1 implies payloads(i2.drop_first())[j]
            == s1[j] by {
            assert(payloads(i2)[p1 + j] == payloads(i2.drop_first())[j]);
            assert(payloads(i2)[p1 + j] == s[p1 + j]);
        }
        assert(payloads(i1.drop_first()) =~= s1.subrange(0, l1 - p1));
        assert(payloads(i2.drop_first()) =~= s1.subrange(0, l2 - p1));
        lemma_items_extent(i1.drop_first(), i2.drop_first(), s1, l1 - p1, l2 - p1);
    }
}

/// Two well-formed entry sequences whose wire bytes (with the end marker)
/// begin the same byte sequence take the same number of bytes from it and
/// correspond pairwise: same names, same value tags, same value payloads.
#[verifier::rlimit(40)]
pub proof fn lemma_entries_correspond(
    e1: Seq<(Vec<u8>, Nbt)>,
    e2: Seq<(Vec<u8>, Nbt)>,
    s: Seq<u8>,
    l1: int,
    l2: int,
)
    requires
        forall|k: int| 0 <= k < e1.len() ==> (#[trigger] e1[k]).0@.len() < 0x10000,
        forall|k: int| 0 <= k < e2.len() ==> (#[trigger] e2[k]).0@.len() < 0x10000,
        forall|k: int| 0 <= k < e1.len() ==> wf((#[trigger] e1[k]).1),
        forall|k: int| 0 <= k < e2.len() ==> wf((#[trigger] e2[k]).1),
        0 <= l1 <= s.len(),
        0 <= l2 <= s.len(),
        entries_bytes(e1) + seq![0u8] == s.subrange(0, l1),
        entries_bytes(e2) + seq![0u8] == s.subrange(0, l2),
    ensures
        l1 == l2,
        e1.len() == e2.len(),
        forall|k: int|
            0 <= k < e1.len() ==> (#[trigger] e1[k]).0@ == e2[k].0@ && tag_of(e1[k].1)
                == tag_of(e2[k].1) && payload(e1[k].1) == payload(e2[k].1),
    decreases e1, 1int,
{
    let w1 = entries_bytes(e1) + seq![0u8];
    let w2 = entries_bytes(e2) + seq![0u8];
    assert(w1.len() == l1 && w2.len() == l2);
    assert(l1 >= 1 && l2 >= 1);
    assert(w1[0] == s[0] && w2[0] == s[0]);
    if e1.len() == 0 {
        assert(entries_bytes(e1) == Seq::<u8>::empty());
        assert(s[0] == 0);
        if e2.len() > 0 {
            assert(w2[0] == entry_bytes(e2[0].0@, e2[0].1)[0]);
            assert(w2[0] == tag_of(e2[0].1));
            assert(tag_of(e2[0].1) != 0);
            assert(false);
        }
        assert(entries_bytes(e2) == Seq::<u8>::empty());
    } else {
        assert(entries_bytes(e1) == entry_bytes(e1[0].0@, e1[0].1) + entries_bytes(
            e1.drop_first(),
        ));
        assert(w1[0] == entry_bytes(e1[0].0@, e1[0].1)[0]);
        assert(w1[0] == tag_of(e1[0].1));
        assert(tag_of(e1[0].1) != 0);
        if e2.len() == 0 {
            assert(entries_bytes(e2) == Seq::<u8>::empty());
            assert(s[0] == 0);
            assert(false);
        }
        assert(entries_bytes(e2) == entry_bytes(e2[0].0@, e2[0].1) + entries_bytes(
            e2.drop_first(),
        ));
        assert(w2[0] == entry_bytes(e2[0].0@, e2[0].1)[0]);
        assert(w2[0] == tag_of(e2[0].1));
        assert(tag_of(e1[0].1) == tag_of(e2[0].1));
        let n1 = e1[0].0@.len() as int;
        let n2 = e2[0].0@.len() as int;
        let b1 = entry_bytes(e1[0].0@, e1[0].1);
        let b2 = entry_bytes(e2[0].0@, e2[0].1);
        assert(b1.len() == 3 + n1 + payload(e1[0].1).len());
        assert(b2.len() == 3 + n2 + payload(e2[0].1).len());
        assert(b1.len() <= l1 && b2.len() <= l2);
        assert forall|j: int| 0 <= j < b1.len() implies b1[j] == s[j] by {
            assert(w1[j] == b1[j]);
            assert(w1[j] == s[j]);
        }
        assert forall|j: int| 0 <= j < b2.len() implies b2[j] == s[j] by {
            assert(w2[j] == b2[j]);
            assert(w2[j] == s[j]);
        }
        assert forall|j: int| 0 <= j < 2 implies be2(n1)[j] == be2(n2)[j] by {
            assert(b1[1 + j] == be2(n1)[j]);
            assert(b2[1 + j] == be2(n2)[j]);
        }
        assert(be2(n1) =~= be2(n2));
        lemma_be2_inject(n1, n2);
        assert(e1[0].0@ =~= s.subrange(3, 3 + n1)) by {
            assert(forall|j: int| 0 <= j < n1 ==> b1[3 + j] == e1[0].0@[j]);
        }
        assert(e2[0].0@ =~= s.subrange(3, 3 + n1)) by {
            assert(forall|j: int| 0 <= j < n2 ==> b2[3 + j] == e2[0].0@[j]);
        }
        let p1 = payload(e1[0].1).len() as int;
        let p2 = payload(e2[0].1).len() as int;
        let sv = s.skip(3 + n1);
        assert(payload(e1[0].1) =~= sv.subrange(0, p1)) by {
            assert(forall|j: int| 0 <= j < p1 ==> b1[3 + n1 + j] == payload(e1[0].1)[j]);
        }
        assert(payload(e2[0].1) =~= sv.subrange(0, p2)) by {
            assert(forall|j: int| 0 <= j < p2 ==> b2[3 + n1 + j] == payload(e2[0].1)[j]);
        }
        assert(decreases_to!(e1 => e1[0]));
        assert(decreases_to!(e1[0] => e1[0].1));
        lemma_node_extent(e1[0].1, e2[0].1, sv, p1, p2);
        assert(payload(e1[0].1) == payload(e2[0].1));
        let used = 3 + n1 + p1;
        let sr = s.skip(used);
        assert(entries_bytes(e1.drop_first()) + seq![0u8] =~= sr.subrange(0, l1 - used)) by {
            assert(forall|j: int|
                0 <= j < l1 - used ==> w1[used + j] == (entries_bytes(e1.drop_first())
                    + seq![0u8])[j]);
        }
        assert(entries_bytes(e2.drop_first()) + seq![0u8] =~= sr.subrange(0, l2 - used)) by {
            assert(forall|j: int|
                0 <= j < l2 - used ==> w2[used + j] == (entries_bytes(e2.drop_first())
                    + seq![0u8])[j]);
        }
        lemma_entries_correspond(
            e1.drop_first(),
            e2.drop_first(),
            sr,
            l1 - used,
            l2 - used,
        );
        assert forall|k: int|
            0 <= k < e1.len() implies (#[trigger] e1[k]).0@ == e2[k].0@ && tag_of(
            e1[k].1,
        ) == tag_of(e2[k].1) && payload(e1[k].1) == payload(e2[k].1) by {
            if k > 0 {
                assert(e1.drop_first()[k - 1] == e1[k]);
                assert(e2.drop_first()[k - 1] == e2[k]);
            } else {
                assert(e1[0].0@ == e2[0].0@);
            }
        }
    }
}

/// Decides well-formedness of a tree, exactly as `wf` defines it.
#[verifier::loop_isolation(false)]
pub fn wf_check(t: &Nbt) -> (r: bool)
    ensures
        r == wf(*t),
    decreases *t,
{
    match t {
        Nbt::Byte(_) => true,
        Nbt::Short(_) => true,
        Nbt::Int(_) => true,
        Nbt::Long(_) => true,
        Nbt::Float(_) => true,
        Nbt::Double(_) => true,
        Nbt::ByteArray(v) => (v.len() as u64) < 0x8000_0000,
        Nbt::Text(v) => v.len() < 0x10000,
        Nbt::List(items) => {
            if (items.len() as u64) >= 0x8000_0000 {
                return false;
            }
            let et: u8 = if items.len() == 0 {
                0
            } else {
                items[0].tag()
            };
            let mut i: usize = 0;
            while i < items.len()
                invariant
                    i <= items@.len(),
                    forall|j: int|
                        0 <= j < i ==> tag_of(#[trigger] items@[j]) == elem_tag(items@),
                    forall|j: int| 0 <= j < i ==> wf(#[trigger] items@[j]),
                decreases items@.len() - i,
            {
                if items[i].tag() != et {
                    return false;
                }
                proof {
                    assert(decreases_to!(*t => *items));
                    assert(decreases_to!(*items => items@[i as int]));
                }
                if !wf_check(&items[i]) {
                    return false;
                }
                i += 1;
            }
            true
        },
        Nbt::Compound(entries) => {
            let mut i: usize = 0;
            while i < entries.len()
                invariant
                    i <= entries@.len(),
                    forall|j: int|
                        0 <= j < i ==> (#[trigger] entries@[j]).0@.len() < 0x10000,
                    forall|j: int| 0 <= j < i ==> wf((#[trigger] entries@[j]).1),
                decreases entries@.len() - i,
            {
                if entries[i].0.len() >= 0x10000 {
                    return false;
                }
                proof {
                    assert(decreases_to!(*t => *entries));
                    assert(decreases_to!(*entries => entries@[i as int]));
                    assert(decreases_to!(entries@[i as int] => entries@[i as int].1));
                }
                if !wf_check(&entries[i].1) {
                    return false;
                }
                i += 1;
            }
            true
        },
        Nbt::IntArray(v) => (v.len() as u64) < 0x8000_0000,
        Nbt::LongArray(v) => (v.len() as u64) < 0x8000_0000,
    }
}

/// Reads the big-endian 16-bit value at `pos`.
pub(crate) fn read_be2(b: &Vec<u8>, pos: usize) -> (r: u32)
    requires
        pos + 2 <= b@.len(),
    ensures
        r < 0x10000,
        be2(r as int) == b@.subrange(pos as int, pos + 2),
{
    let len: usize = b.len();
    let r: u32 = (b[pos] as u32) * 0x100 + (b[pos + 1] as u32);
    assert(be2(r as int) =~= b@.subrange(pos as int, pos + 2));
    r
}

/// Reads the big-endian 32-bit value at `pos`.
pub(crate) fn read_be4(b: &Vec<u8>, pos: usize) -> (r: u64)
    requires
        pos + 4 <= b@.len(),
    ensures
        r < 0x1_0000_0000,
        be4(r as int) == b@.subrange(pos as int, pos + 4),
{
    let len: usize = b.len();
    let b0: u8 = b[pos];
    let b1: u8 = b[pos + 1];
    let b2: u8 = b[pos + 2];
    let b3: u8 = b[pos + 3];
    let r: u64 = (b0 as u64) * 0x100_0000 + (b1 as u64) * 0x1_0000 + (b2 as u64) * 0x100
        + (b3 as u64);
    proof {
        lemma_be4_decompose(b0, b1, b2, b3, r);
        assert(be4(r as int) =~= b@.subrange(pos as int, pos + 4));
    }
    r
}

/// Reads the big-endian 64-bit value at `pos`.
#[verifier::rlimit(60)]
fn read_be8(b: &Vec<u8>, pos: usize) -> (r: u128)
    requires
        pos + 8 <= b@.len(),
    ensures
        r < 0x1_0000_0000_0000_0000,
        be8(r as int) == b@.subrange(pos as int, pos + 8),
{
    let len: usize = b.len();
    let b0: u8 = b[pos];
    let b1: u8 = b[pos + 1];
    let b2: u8 = b[pos + 2];
    let b3: u8 = b[pos + 3];
    let b4: u8 = b[pos + 4];
    let b5: u8 = b[pos + 5];
    let b6: u8 = b[pos + 6];
    let b7: u8 = b[pos + 7];
    let r: u128 = (b0 as u128) * 0x100_0000_0000_0000 + (b1 as u128) * 0x1_0000_0000_0000
        + (b2 as u128) * 0x100_0000_0000 + (b3 as u128) * 0x1_0000_0000 + (b4 as u128)
        * 0x100_0000 + (b5 as u128) * 0x1_0000 + (b6 as u128) * 0x100 + (b7 as u128);
    proof {
        lemma_be8_decompose(b0, b1, b2, b3, b4, b5, b6, b7, r);
        assert(be8(r as int) =~= b@.subrange(pos as int, pos + 8));
    }
    r
}

/// Signed 8-bit value with the given two's-complement byte.
fn to_i8(u: u8) -> (r: i8)
    ensures
        u8_rep(r) == u,
{
    if u < 0x80 {
        u as i8
    } else {
        ((u as i16) - 0x100) as i8
    }
}

/// Signed 16-bit value with the given two's-complement value.
fn to_i16(u: u32) -> (r: i16)
    requires
        u < 0x10000,
    ensures
        u16_rep(r) == u,
{
    if u < 0x8000 {
        u as i16
    } else {
        ((u as i32) - 0x10000) as i16
    }
}

/// Signed 32-bit value with the given two's-complement value.
fn to_i32(u: u64) -> (r: i32)
    requires
        u < 0x1_0000_0000,
    ensures
        u32_rep(r) == u,
{
    if u < 0x8000_0000 {
        u as i32
    } else {
        ((u as i64) - 0x1_0000_0000) as i32
    }
}

/// Signed 64-bit value with the given two's-complement value.
fn to_i64(u: u128) -> (r: i64)
    requires
        u < 0x1_0000_0000_0000_0000,
    ensures
        u64_rep(r) == u,
{
    if u < 0x8000_0000_0000_0000 {
        u as i64
    } else {
        ((u as i128) - 0x1_0000_0000_0000_0000) as i64
    }
}


/// Parses a byte-array payload at `pos`.
#[verifier::loop_isolation(false)]
fn parse_byte_array(b: &Vec<u8>, pos: usize) -> (r: Option<(Nbt, usize)>)
    requires
        pos <= b@.len(),
    ensures
        match r {
            Some((t, end)) => {
                &&& pos <= end <= b@.len()
                &&& tag_of(t) == 7
                &&& wf(t)
                &&& payload(t) == b@.subrange(pos as int, end as int)
            },
            None => forall|t: Nbt, end: int| !#[trigger] node_at(b@, pos as int, 7, t, end),
        },
{
    let len: usize = b.len();
    if len - pos < 4 {
        proof {
            assert forall|t: Nbt, end: int| !#[trigger] node_at(b@, pos as int, 7, t, end) by {
                if node_at(b@, pos as int, 7, t, end) {
                    assert(t is ByteArray);
                    assert(payload(t).len() >= 4);
                    assert(false);
                }
            }
        }
        return None;
    }
    let n: u64 = read_be4(b, pos);
    let count: usize;
    let avail: usize = len - pos - 4;
    if n >= 0x8000_0000 || n > avail as u64 {
        proof {
            assert forall|t: Nbt, end: int| !#[trigger] node_at(b@, pos as int, 7, t, end) by {
                if node_at(b@, pos as int, 7, t, end) {
                    assert(t is ByteArray);
                    let m = t->ByteArray_0@.len() as int;
                    assert(payload(t).len() == end - pos);
                    assert forall|j: int| 0 <= j < 4 implies be4(m)[j] == be4(n as int)[j] by {
                        assert(payload(t)[j] == be4(m)[j]);
                        assert(payload(t)[j] == b@[pos + j]);
                        assert(be4(n as int)[j] == b@.subrange(pos as int, pos + 4)[j]);
                    }
                    assert(be4(m) =~= be4(n as int));
                    lemma_be4_inject(m, n as int);
                    assert(end - pos == 4 + m);
                    assert(false);
                }
            }
        }
        return None;
    }
    count = n as usize;
    let start: usize = pos + 4;
    let mut v: Vec<i8> = Vec::new();
    let mut i: usize = 0;
    while i < count
        invariant
            i <= count,
            v@.len() == i,
            bytes_rep(v@) == b@.subrange(start as int, start + i),
        decreases count - i,
    {
        v.push(to_i8(b[start + i]));
        assert(bytes_rep(v@) =~= b@.subrange(start as int, start + i + 1));
        i += 1;
    }
    let t = Nbt::ByteArray(v);
    assert(payload(t) =~= b@.subrange(pos as int, start + count));
    Some((t, start + count))
}

/// Parses a string payload at `pos`.
#[verifier::loop_isolation(false)]
fn parse_text(b: &Vec<u8>, pos: usize) -> (r: Option<(Nbt, usize)>)
    requires
        pos <= b@.len(),
    ensures
        match r {
            Some((t, end)) => {
                &&& pos <= end <= b@.len()
                &&& tag_of(t) == 8
                &&& wf(t)
                &&& payload(t) == b@.subrange(pos as int, end as int)
            },
            None => forall|t: Nbt, end: int| !#[trigger] node_at(b@, pos as int, 8, t, end),
        },
{
    let len: usize = b.len();
    if len - pos < 2 {
        proof {
            assert forall|t: Nbt, end: int| !#[trigger] node_at(b@, pos as int, 8, t, end) by {
                if node_at(b@, pos as int, 8, t, end) {
                    assert(t is Text);
                    assert(payload(t).len() >= 2);
                    assert(false);
                }
            }
        }
        return None;
    }
    let n: u32 = read_be2(b, pos);
    let count: usize = n as usize;
    let avail: usize = len - pos - 2;
    if count > avail {
        proof {
            assert forall|t: Nbt, end: int| !#[trigger] node_at(b@, pos as int, 8, t, end) by {
                if node_at(b@, pos as int, 8, t, end) {
                    assert(t is Text);
                    let m = t->Text_0@.len() as int;
                    assert(payload(t).len() == end - pos);
                    assert forall|j: int| 0 <= j < 2 implies be2(m)[j] == be2(n as int)[j] by {
                        assert(payload(t)[j] == be2(m)[j]);
                        assert(payload(t)[j] == b@[pos + j]);
                        assert(be2(n as int)[j] == b@.subrange(pos as int, pos + 2)[j]);
                    }
                    assert(be2(m) =~= be2(n as int));
                    lemma_be2_inject(m, n as int);
                    assert(end - pos == 2 + m);
                    assert(false);
                }
            }
        }
        return None;
    }
    let start: usize = pos + 2;
    let mut v: Vec<u8> = Vec::new();
    let mut i: usize = 0;
    while i < count
        invariant
            i <= count,
            v@ == b@.subrange(start as int, start + i),
        decreases count - i,
    {
        v.push(b[start + i]);
        assert(v@ =~= b@.subrange(start as int, start + i + 1));
        i += 1;
    }
    let t = Nbt::Text(v);
    assert(payload(t) =~= b@.subrange(pos as int, start + count));
    Some((t, start + count))
}

/// Parses an integer-array payload at `pos`.
#[verifier::loop_isolation(false)]
fn parse_int_array(b: &Vec<u8>, pos: usize) -> (r: Option<(Nbt, usize)>)
    requires
        pos <= b@.len(),
    ensures
        match r {
            Some((t, end)) => {
                &&& pos <= end <= b@.len()
                &&& tag_of(t) == 11
                &&& wf(t)
                &&& payload(t) == b@.subrange(pos as int, end as int)
            },
            None => forall|t: Nbt, end: int| !#[trigger] node_at(b@, pos as int, 11, t, end),
        },
{
    let len: usize = b.len();
    if len - pos < 4 {
        proof {
            assert forall|t: Nbt, end: int| !#[trigger] node_at(b@, pos as int, 11, t, end) by {
                if node_at(b@, pos as int, 11, t, end) {
                    assert(t is IntArray);
                    assert(payload(t).len() >= 4);
                    assert(false);
                }
            }
        }
        return None;
    }
    let n: u64 = read_be4(b, pos);
    let count: usize;
    let avail: usize = len - pos - 4;
    if n >= 0x8000_0000 || n * 4 > avail as u64 {
        proof {
            assert forall|t: Nbt, end: int| !#[trigger] node_at(b@, pos as int, 11, t, end) by {
                if node_at(b@, pos as int, 11, t, end) {
                    assert(t is IntArray);
                    let m = t->IntArray_0@.len() as int;
                    assert(payload(t).len() == end - pos);
                    assert forall|j: int| 0 <= j < 4 implies be4(m)[j] == be4(n as int)[j] by {
                        assert(payload(t)[j] == be4(m)[j]);
                        assert(payload(t)[j] == b@[pos + j]);
                        assert(be4(n as int)[j] == b@.subrange(pos as int, pos + 4)[j]);
                    }
                    assert(be4(m) =~= be4(n as int));
                    lemma_be4_inject(m, n as int);
                    lemma_ints_len(t->IntArray_0@);
                    assert(end - pos == 4 + 4 * m);
                    assert(false);
                }
            }
        }
        return None;
    }
    count = n as usize;
    let start: usize = pos + 4;
    let mut v: Vec<i32> = Vec::new();
    let mut i: usize = 0;
    while i < count
        invariant
            i <= count,
            v@.len() == i,
            ints_bytes(v@) == b@.subrange(start as int, start + 4 * i),
        decreases count - i,
    {
        let x: i32 = to_i32(read_be4(b, start + 4 * i));
        let ghost pre = v@;
        v.push(x);
        proof {
            lemma_ints_take(v@, i as int);
            assert(v@.take(i + 1) =~= v@);
            assert(v@.take(i as int) =~= pre);
            assert(v@[i as int] == x);
            assert(ints_bytes(v@) =~= b@.subrange(start as int, start + 4 * (i + 1)));
        }
        i += 1;
    }
    let t = Nbt::IntArray(v);
    assert(payload(t) =~= b@.subrange(pos as int, start + 4 * count));
    Some((t, start + 4 * count))
}

/// Parses a long-array payload at `pos`.
#[verifier::loop_isolation(false)]
fn parse_long_array(b: &Vec<u8>, pos: usize) -> (r: Option<(Nbt, usize)>)
    requires
        pos <= b@.len(),
    ensures
        match r {
            Some((t, end)) => {
                &&& pos <= end <= b@.len()
                &&& tag_of(t) == 12
                &&& wf(t)
                &&& payload(t) == b@.subrange(pos as int, end as int)
            },
            None => forall|t: Nbt, end: int| !#[trigger] node_at(b@, pos as int, 12, t, end),
        },
{
    let len: usize = b.len();
    if len - pos < 4 {
        proof {
            assert forall|t: Nbt, end: int| !#[trigger] node_at(b@, pos as int, 12, t, end) by {
                if node_at(b@, pos as int, 12, t, end) {
                    assert(t is LongArray);
                    assert(payload(t).len() >= 4);
                    assert(false);
                }
            }
        }
        return None;
    }
    let n: u64 = read_be4(b, pos);
    let count: usize;
    let avail: usize = len - pos - 4;
    if n >= 0x8000_0000 || n * 8 > avail as u64 {
        proof {
            assert forall|t: Nbt, end: int| !#[trigger] node_at(b@, pos as int, 12, t, end) by {
                if node_at(b@, pos as int, 12, t, end) {
                    assert(t is LongArray);
                    let m = t->LongArray_0@.len() as int;
                    assert(payload(t).len() == end - pos);
                    assert forall|j: int| 0 <= j < 4 implies be4(m)[j] == be4(n as int)[j] by {
                        assert(payload(t)[j] == be4(m)[j]);
                        assert(payload(t)[j] == b@[pos + j]);
                        assert(be4(n as int)[j] == b@.subrange(pos as int, pos + 4)[j]);
                    }
                    assert(be4(m) =~= be4(n as int));
                    lemma_be4_inject(m, n as int);
                    lemma_longs_len(t->LongArray_0@);
                    assert(end - pos == 4 + 8 * m);
                    assert(false);
                }
            }
        }
        return None;
    }
    count = n as usize;
    let start: usize = pos + 4;
    let mut v: Vec<i64> = Vec::new();
    let mut i: usize = 0;
    while i < count
        invariant
            i <= count,
            v@.len() == i,
            longs_bytes(v@) == b@.subrange(start as int, start + 8 * i),
        decreases count - i,
    {
        let x: i64 = to_i64(read_be8(b, start + 8 * i));
        let ghost pre = v@;
        v.push(x);
        proof {
            lemma_longs_take(v@, i as int);
            assert(v@.take(i + 1) =~= v@);
            assert(v@.take(i as int) =~= pre);
            assert(v@[i as int] == x);
            assert(longs_bytes(v@) =~= b@.subrange(start as int, start + 8 * (i + 1)));
        }
        i += 1;
    }
    let t = Nbt::LongArray(v);
    assert(payload(t) =~= b@.subrange(pos as int, start + 8 * count));
    Some((t, start + 8 * count))
}

/// Parses the payload of a node with the given wire tag, starting at `pos`.
/// A parsed node is well formed and re-encodes to exactly the bytes read;
/// a document deeper than `fuel` levels or malformed bytes yield `None`.
#[verifier::loop_isolation(false)]
pub fn parse_payload(b: &Vec<u8>, pos: usize, tag: u8, fuel: usize) -> (r: Option<
    (Nbt, usize),
>)
    requires
        pos <= b@.len(),
    ensures
        match r {
            Some((t, end)) => {
                &&& pos <= end <= b@.len()
                &&& tag_of(t) == tag
                &&& wf(t)
                &&& payload(t) == b@.subrange(pos as int, end as int)
            },
            None => forall|t: Nbt, end: int|
                #[trigger] node_at(b@, pos as int, tag, t, end) ==> end - pos > fuel,
        },
    decreases fuel, 0int,
{
    let len: usize = b.len();
    if tag == 1 {
        if len - pos < 1 {
            proof {
                assert forall|t: Nbt, end: int|
                    #[trigger] node_at(b@, pos as int, tag, t, end) implies end - pos
                    > fuel by {
                    assert(payload(t).len() == end - pos);
                    assert(payload(t).len() == 1);
                    assert(false);
                }
            }
            return None;
        }
        let t = Nbt::Byte(to_i8(b[pos]));
        assert(payload(t) =~= b@.subrange(pos as int, pos + 1));
        Some((t, pos + 1))
    } else if tag == 2 {
        if len - pos < 2 {
            proof {
                assert forall|t: Nbt, end: int|
                    #[trigger] node_at(b@, pos as int, tag, t, end) implies end - pos
                    > fuel by {
                    assert(payload(t).len() == end - pos);
                    assert(payload(t).len() == 2);
                    assert(false);
                }
            }
            return None;
        }
        let t = Nbt::Short(to_i16(read_be2(b, pos)));
        Some((t, pos + 2))
    } else if tag == 3 {
        if len - pos < 4 {
            proof {
                assert forall|t: Nbt, end: int|
                    #[trigger] node_at(b@, pos as int, tag, t, end) implies end - pos
                    > fuel by {
                    assert(payload(t).len() == end - pos);
                    assert(payload(t).len() == 4);
                    assert(false);
                }
            }
            return None;
        }
        let t = Nbt::Int(to_i32(read_be4(b, pos)));
        Some((t, pos + 4))
    } else if tag == 4 {
        if len - pos < 8 {
            proof {
                assert forall|t: Nbt, end: int|
                    #[trigger] node_at(b@, pos as int, tag, t, end) implies end - pos
                    > fuel by {
                    assert(payload(t).len() == end - pos);
                    assert(payload(t).len() == 8);
                    assert(false);
                }
            }
            return None;
        }
        let t = Nbt::Long(to_i64(read_be8(b, pos)));
        Some((t, pos + 8))
    } else if tag == 5 {
        if len - pos < 4 {
            proof {
                assert forall|t: Nbt, end: int|
                    #[trigger] node_at(b@, pos as int, tag, t, end) implies end - pos
                    > fuel by {
                    assert(payload(t).len() == end - pos);
                    assert(payload(t).len() == 4);
                    assert(false);
                }
            }
            return None;
        }
        let t = Nbt::Float(read_be4(b, pos) as u32);
        Some((t, pos + 4))
    } else if tag == 6 {
        if len - pos < 8 {
            proof {
                assert forall|t: Nbt, end: int|
                    #[trigger] node_at(b@, pos as int, tag, t, end) implies end - pos
                    > fuel by {
                    assert(payload(t).len() == end - pos);
                    assert(payload(t).len() == 8);
                    assert(false);
                }
            }
            return None;
        }
        let t = Nbt::Double(read_be8(b, pos) as u64);
        Some((t, pos + 8))
    } else if tag == 7 {
        parse_byte_array(b, pos)
    } else if tag == 8 {
        parse_text(b, pos)
    } else if tag == 9 {
        if len - pos < 5 {
            proof {
                assert forall|t: Nbt, end: int|
                    #[trigger] node_at(b@, pos as int, tag, t, end) implies end - pos
                    > fuel by {
                    assert(t is List);
                    assert(payload(t).len() == end - pos);
                    assert(payload(t).len() >= 5);
                    assert(false);
                }
            }
            return None;
        }
        let et: u8 = b[pos];
        let n: u64 = read_be4(b, pos + 1);
        if n >= 0x8000_0000 {
            proof {
                assert forall|t: Nbt, end: int|
                    #[trigger] node_at(b@, pos as int, tag, t, end) implies end - pos
                    > fuel by {
                    assert(t is List);
                    lemma_list_count(b@, pos as int, t, end, n as int);
                    assert(false);
                }
            }
            return None;
        }
        let count: usize = n as usize;
        let start: usize = pos + 5;
        if count == 0 {
            if et != 0 {
                proof {
                    assert forall|t: Nbt, end: int|
                        #[trigger] node_at(b@, pos as int, tag, t, end) implies end - pos
                        > fuel by {
                        assert(t is List);
                        lemma_list_count(b@, pos as int, t, end, n as int);
                        assert(t->List_0@.len() == 0);
                        assert(payload(t) == seq![elem_tag(t->List_0@)] + be4(
                            t->List_0@.len() as int,
                        ) + payloads(t->List_0@));
                        assert(payload(t)[0] == elem_tag(t->List_0@));
                        assert(payload(t)[0] == b@[pos as int]);
                        assert(false);
                    }
                }
                return None;
            }
            let t = Nbt::List(Vec::new());
            assert(payloads(Seq::<Nbt>::empty()) =~= Seq::<u8>::empty());
            assert(payload(t) =~= b@.subrange(pos as int, start as int));
            return Some((t, start));
        }
        if et < 1 || et > 12 {
            proof {
                assert forall|t: Nbt, end: int|
                    #[trigger] node_at(b@, pos as int, tag, t, end) implies end - pos
                    > fuel by {
                    assert(t is List);
                    lemma_list_count(b@, pos as int, t, end, n as int);
                    assert(t->List_0@.len() > 0);
                    lemma_tag_range(t->List_0@[0]);
                    assert(payload(t) == seq![elem_tag(t->List_0@)] + be4(
                        t->List_0@.len() as int,
                    ) + payloads(t->List_0@));
                    assert(payload(t)[0] == elem_tag(t->List_0@));
                    assert(payload(t)[0] == b@[pos as int]);
                    assert(false);
                }
            }
            return None;
        }
        if fuel == 0 {
            proof {
                assert forall|t: Nbt, end: int|
                    #[trigger] node_at(b@, pos as int, tag, t, end) implies end - pos
                    > fuel by {
                    lemma_payload_min(t);
                    assert(payload(t).len() == end - pos);
                }
            }
            return None;
        }
        match parse_items(b, start, et, count, fuel - 1) {
            Some((items, end)) => {
                let t = Nbt::List(items);
                assert(payload(t) =~= b@.subrange(pos as int, end as int));
                Some((t, end))
            },
            None => {
                proof {
                    assert forall|t: Nbt, end: int|
                        #[trigger] node_at(b@, pos as int, tag, t, end) implies end - pos
                        > fuel by {
                        assert(t is List);
                        let items = t->List_0@;
                        lemma_list_count(b@, pos as int, t, end, n as int);
                        assert(payload(t) == seq![elem_tag(items)] + be4(
                            items.len() as int,
                        ) + payloads(items));
                        assert(payload(t)[0] == elem_tag(items));
                        assert(payload(t)[0] == b@[pos as int]);
                        assert(elem_tag(items) == et);
                        assert forall|k: int| 0 <= k < items.len() implies tag_of(
                            #[trigger] items[k],
                        ) == et by {
                            assert(tag_of(items[k]) == elem_tag(items));
                        }
                        assert forall|j: int|
                            0 <= j < end - pos - 5 implies payloads(items)[j] == b@[start
                            + j] by {
                            assert(payload(t)[5 + j] == payloads(items)[j]);
                            assert(payload(t)[5 + j] == b@[pos + 5 + j]);
                        }
                        assert(payloads(items) =~= b@.subrange(start as int, end as int));
                        assert(items_at(b@, start as int, et, count as int, items, end));
                        assert(end - start > fuel - 1);
                    }
                }
                None
            },
        }
    } else if tag == 10 {
        if fuel == 0 {
            proof {
                assert forall|t: Nbt, end: int|
                    #[trigger] node_at(b@, pos as int, tag, t, end) implies end - pos
                    > fuel by {
                    lemma_payload_min(t);
                    assert(payload(t).len() == end - pos);
                }
            }
            return None;
        }
        match parse_entries(b, pos, fuel - 1) {
            Some((entries, end)) => {
                let t = Nbt::Compound(entries);
                assert(payload(t) =~= b@.subrange(pos as int, end as int));
                Some((t, end))
            },
            None => {
                proof {
                    assert forall|t: Nbt, end: int|
                        #[trigger] node_at(b@, pos as int, tag, t, end) implies end - pos
                        > fuel by {
                        assert(t is Compound);
                        let es = t->Compound_0@;
                        assert(entries_bytes(es) + seq![0u8] == payload(t));
                        assert(entries_at(b@, pos as int, es, end));
                        assert(end - pos > (fuel - 1) + 1);
                    }
                }
                None
            },
        }
    } else if tag == 11 {
        parse_int_array(b, pos)
    } else if tag == 12 {
        parse_long_array(b, pos)
    } else {
        proof {
            assert forall|t: Nbt, end: int|
                #[trigger] node_at(b@, pos as int, tag, t, end) implies end - pos
                > fuel by {
                lemma_tag_range(t);
                assert(false);
            }
        }
        None
    }
}

/// A list node's count prefix names exactly its element count.
proof fn lemma_list_count(b: Seq<u8>, pos: int, t: Nbt, end: int, n: int)
    requires
        t is List,
        node_at(b, pos, 9, t, end),
        0 <= n < 0x1_0000_0000,
        be4(n) == b.subrange(pos + 1, pos + 5),
    ensures
        t->List_0@.len() == n,
{
    let m = t->List_0@.len() as int;
    assert(payload(t) == seq![elem_tag(t->List_0@)] + be4(m) + payloads(t->List_0@));
    assert(payload(t).len() == end - pos);
    assert(payload(t).len() >= 5);
    assert forall|j: int| 0 <= j < 4 implies be4(m)[j] == be4(n)[j] by {
        assert(payload(t)[1 + j] == be4(m)[j]);
        assert(payload(t)[1 + j] == b[pos + 1 + j]);
        assert(be4(n)[j] == b.subrange(pos + 1, pos + 5)[j]);
    }
    assert(be4(m) =~= be4(n));
    lemma_be4_inject(m, n);
}

/// Parses `count` list elements of tag `et` starting at `pos`.
#[verifier::loop_isolation(false)]
fn parse_items(b: &Vec<u8>, pos: usize, et: u8, count: usize, fuel: usize) -> (r: Option<
    (Vec<Nbt>, usize),
>)
    requires
        pos <= b@.len(),
        1 <= et <= 12,
        count >= 1,
    ensures
        match r {
            Some((items, end)) => {
                &&& pos <= end <= b@.len()
                &&& items@.len() == count
                &&& forall|i: int|
                    0 <= i < items@.len() ==> tag_of(#[trigger] items@[i]) == et
                &&& forall|i: int| 0 <= i < items@.len() ==> wf(#[trigger] items@[i])
                &&& payloads(items@) == b@.subrange(pos as int, end as int)
            },
            None => forall|items: Seq<Nbt>, end: int|
                #[trigger] items_at(b@, pos as int, et, count as int, items, end) ==> end
                    - pos > fuel,
        },
    decreases fuel, 1int,
{
    match parse_payload(b, pos, et, fuel) {
        Some((t, mid)) => {
            if count == 1 {
                let mut items: Vec<Nbt> = Vec::new();
                items.push(t);
                assert(items@.drop_first() =~= Seq::<Nbt>::empty());
                assert(items@[0] == t);
                assert(payloads(items@.drop_first()) == Seq::<u8>::empty());
                assert(payloads(items@) =~= b@.subrange(pos as int, mid as int));
                Some((items, mid))
            } else {
                if fuel == 0 {
                    proof {
                        assert forall|items: Seq<Nbt>, end: int|
                            #[trigger] items_at(b@, pos as int, et, count as int, items, end)
                            implies end - pos > fuel by {
                            lemma_payloads_min(items);
                            assert(payloads(items).len() == end - pos);
                        }
                    }
                    return None;
                }
                match parse_items(b, mid, et, count - 1, fuel - 1) {
                    Some((mut rest, end)) => {
                        let ghost rest0 = rest@;
                        rest.insert(0, t);
                        assert(rest@.drop_first() =~= rest0);
                        assert(rest@[0] == t);
                        assert(payloads(rest@) == payload(t) + payloads(rest0));
                        assert(payloads(rest@) =~= b@.subrange(pos as int, end as int));
                        Some((rest, end))
                    },
                    None => {
                        proof {
                            assert forall|items: Seq<Nbt>, end: int|
                                #[trigger] items_at(
                                    b@,
                                    pos as int,
                                    et,
                                    count as int,
                                    items,
                                    end,
                                ) implies end - pos > fuel by {
                                let p0 = payload(items[0]).len() as int;
                                assert(payloads(items) == payload(items[0]) + payloads(
                                    items.drop_first(),
                                ));
                                assert(payloads(items).len() == end - pos);
                                let sp = b@.skip(pos as int);
                                assert forall|j: int|
                                    0 <= j < p0 implies payload(items[0])[j] == sp[j] by {
                                    assert(payloads(items)[j] == payload(items[0])[j]);
                                    assert(payloads(items)[j] == b@[pos + j]);
                                }
                                assert(payload(items[0]) =~= sp.subrange(0, p0));
                                assert forall|j: int|
                                    0 <= j < mid - pos implies payload(t)[j] == sp[j] by {
                                    assert(payload(t)[j] == b@[pos + j]);
                                }
                                assert(payload(t) =~= sp.subrange(0, mid - pos));
                                lemma_node_extent(t, items[0], sp, mid - pos, p0);
                                assert(p0 == mid - pos);
                                lemma_payload_min(items[0]);
                                assert forall|j: int|
                                    0 <= j < end - mid implies payloads(
                                    items.drop_first(),
                                )[j] == b@[mid + j] by {
                                    assert(payloads(items)[p0 + j] == payloads(
                                        items.drop_first(),
                                    )[j]);
                                    assert(payloads(items)[p0 + j] == b@[pos + p0 + j]);
                                }
                                assert(payloads(items.drop_first()) =~= b@.subrange(
                                    mid as int,
                                    end as int,
                                ));
                                assert forall|k: int|
                                    0 <= k < items.drop_first().len() implies tag_of(
                                    #[trigger] items.drop_first()[k],
                                ) == et && wf(items.drop_first()[k]) by {
                                    assert(items.drop_first()[k] == items[k + 1]);
                                }
                                assert(items_at(
                                    b@,
                                    mid as int,
                                    et,
                                    (count - 1) as int,
                                    items.drop_first(),
                                    end,
                                ));
                                assert(end - mid > fuel - 1);
                            }
                        }
                        None
                    },
                }
            }
        },
        None => {
            proof {
                assert forall|items: Seq<Nbt>, end: int|
                    #[trigger] items_at(b@, pos as int, et, count as int, items, end)
                    implies end - pos > fuel by {
                    let p0 = payload(items[0]).len() as int;
                    assert(payloads(items) == payload(items[0]) + payloads(
                        items.drop_first(),
                    ));
                    assert(payloads(items).len() == end - pos);
                    assert forall|j: int|
                        0 <= j < p0 implies payload(items[0])[j] == b@[pos + j] by {
                        assert(payloads(items)[j] == payload(items[0])[j]);
                        assert(payloads(items)[j] == b@[pos + j]);
                    }
                    assert(payload(items[0]) =~= b@.subrange(pos as int, pos + p0));
                    assert(node_at(b@, pos as int, et, items[0], pos + p0));
                    assert(pos + p0 - pos > fuel);
                }
            }
            None
        },
    }
}

/// One named entry at the head of a compound's wire bytes: its tag byte,
/// name length, name, payload and the remaining entries, each at its
/// place.
#[verifier::rlimit(50)]
pub(crate) proof fn lemma_entry_head(b: Seq<u8>, pos: int, e: Seq<(Vec<u8>, Nbt)>, end: int)
    requires
        entries_at(b, pos, e, end),
        e.len() > 0,
    ensures
        ({
            let n = e[0].0@.len() as int;
            let p = payload(e[0].1).len() as int;
            &&& end - pos >= 3 + n + p + 1
            &&& b[pos] == tag_of(e[0].1)
            &&& be2(n) == b.subrange(pos + 1, pos + 3)
            &&& e[0].0@ == b.subrange(pos + 3, pos + 3 + n)
            &&& payload(e[0].1) == b.subrange(pos + 3 + n, pos + 3 + n + p)
            &&& entries_at(b, pos + 3 + n + p, e.drop_first(), end)
        }),
{
    let n = e[0].0@.len() as int;
    let p = payload(e[0].1).len() as int;
    let w = entries_bytes(e) + seq![0u8];
    let eb0 = entry_bytes(e[0].0@, e[0].1);
    assert(entries_bytes(e) == eb0 + entries_bytes(e.drop_first()));
    assert(eb0 == seq![tag_of(e[0].1)] + be2(n) + e[0].0@ + payload(e[0].1));
    assert(eb0.len() == 3 + n + p);
    assert(w == b.subrange(pos, end));
    assert(w.len() == end - pos);
    assert forall|j: int| 0 <= j < eb0.len() implies eb0[j] == b[pos + j] by {
        assert(w[j] == eb0[j]);
        assert(w[j] == b.subrange(pos, end)[j]);
    }
    assert(eb0[0] == tag_of(e[0].1));
    assert(b[pos] == eb0[0]);
    assert(be2(n) =~= b.subrange(pos + 1, pos + 3)) by {
        assert(forall|j: int| 0 <= j < 2 ==> eb0[1 + j] == be2(n)[j]);
    }
    assert(e[0].0@ =~= b.subrange(pos + 3, pos + 3 + n)) by {
        assert(forall|j: int| 0 <= j < n ==> eb0[3 + j] == e[0].0@[j]);
    }
    assert(payload(e[0].1) =~= b.subrange(pos + 3 + n, pos + 3 + n + p)) by {
        assert(forall|j: int| 0 <= j < p ==> eb0[3 + n + j] == payload(e[0].1)[j]);
    }
    let used = 3 + n + p;
    assert(entries_bytes(e.drop_first()) + seq![0u8] =~= b.subrange(pos + used, end)) by {
        assert(forall|j: int|
            0 <= j < end - pos - used ==> w[used + j] == #[trigger] (entries_bytes(
                e.drop_first(),
            ) + seq![0u8])[j]);
        assert(forall|j: int|
            0 <= j < end - pos - used ==> w[used + j] == #[trigger] b.subrange(
                pos,
                end,
            )[used + j]);
    }
    assert forall|k: int|
        0 <= k < e.drop_first().len() implies (#[trigger] e.drop_first()[k]).0@.len()
        < 0x10000 && wf(e.drop_first()[k].1) by {
        assert(e.drop_first()[k] == e[k + 1]);
    }
}

/// Parses named compound entries starting at `pos`, up to and including the
/// end marker.
#[verifier::loop_isolation(false)]
#[verifier::rlimit(30)]
fn parse_entries(b: &Vec<u8>, pos: usize, fuel: usize) -> (r: Option<
    (Vec<(Vec<u8>, Nbt)>, usize),
>)
    requires
        pos <= b@.len(),
    ensures
        match r {
            Some((entries, end)) => {
                &&& pos <= end <= b@.len()
                &&& forall|i: int|
                    0 <= i < entries@.len() ==> (#[trigger] entries@[i]).0@.len() < 0x10000
                &&& forall|i: int|
                    0 <= i < entries@.len() ==> wf((#[trigger] entries@[i]).1)
                &&& entries_bytes(entries@) + seq![0u8] == b@.subrange(
                    pos as int,
                    end as int,
                )
            },
            None => forall|entries: Seq<(Vec<u8>, Nbt)>, end: int|
                #[trigger] entries_at(b@, pos as int, entries, end) ==> end - pos > fuel
                    + 1,
        },
    decreases fuel, 2int,
{
    let len: usize = b.len();
    if len - pos < 1 {
        proof {
            assert forall|entries: Seq<(Vec<u8>, Nbt)>, end: int|
                #[trigger] entries_at(b@, pos as int, entries, end) implies end - pos
                > fuel + 1 by {
                assert((entries_bytes(entries) + seq![0u8]).len() == end - pos);
                assert(end - pos >= 1);
                assert(false);
            }
        }
        return None;
    }
    let et: u8 = b[pos];
    if et == 0 {
        let entries: Vec<(Vec<u8>, Nbt)> = Vec::new();
        assert(entries_bytes(entries@) + seq![0u8] =~= b@.subrange(pos as int, pos + 1));
        return Some((entries, pos + 1));
    }
    if et > 12 {
        proof {
            assert forall|entries: Seq<(Vec<u8>, Nbt)>, end: int|
                #[trigger] entries_at(b@, pos as int, entries, end) implies end - pos
                > fuel + 1 by {
                if entries.len() == 0 {
                    assert((entries_bytes(entries) + seq![0u8])[0] == b@.subrange(
                        pos as int,
                        end as int,
                    )[0]);
                    assert(b@[pos as int] == 0);
                    assert(false);
                } else {
                    lemma_entry_head(b@, pos as int, entries, end);
                    lemma_tag_range(entries[0].1);
                    assert(false);
                }
            }
        }
        return None;
    }
    if len - pos < 3 {
        proof {
            assert forall|entries: Seq<(Vec<u8>, Nbt)>, end: int|
                #[trigger] entries_at(b@, pos as int, entries, end) implies end - pos
                > fuel + 1 by {
                if entries.len() == 0 {
                    assert((entries_bytes(entries) + seq![0u8])[0] == b@.subrange(
                        pos as int,
                        end as int,
                    )[0]);
                    assert(b@[pos as int] == 0);
                    assert(false);
                } else {
                    lemma_entry_head(b@, pos as int, entries, end);
                    lemma_payload_min(entries[0].1);
                    assert(end - pos >= 5);
                    assert(false);
                }
            }
        }
        return None;
    }
    let nlen: usize = read_be2(b, pos + 1) as usize;
    let nstart: usize = pos + 3;
    if nlen > len - nstart {
        proof {
            assert forall|entries: Seq<(Vec<u8>, Nbt)>, end: int|
                #[trigger] entries_at(b@, pos as int, entries, end) implies end - pos
                > fuel + 1 by {
                if entries.len() == 0 {
                    assert((entries_bytes(entries) + seq![0u8])[0] == b@.subrange(
                        pos as int,
                        end as int,
                    )[0]);
                    assert(b@[pos as int] == 0);
                    assert(false);
                } else {
                    lemma_entry_head(b@, pos as int, entries, end);
                    lemma_be2_inject(entries[0].0@.len() as int, nlen as int);
                    lemma_payload_min(entries[0].1);
                    assert(end - pos >= 3 + nlen + 1 + 1);
                    assert(false);
                }
            }
        }
        return None;
    }
    let mut name: Vec<u8> = Vec::new();
    let mut i: usize = 0;
    while i < nlen
        invariant
            i <= nlen,
            nstart + nlen <= b@.len(),
            name@ == b@.subrange(nstart as int, nstart + i),
        decreases nlen - i,
    {
        name.push(b[nstart + i]);
        assert(name@ =~= b@.subrange(nstart as int, nstart + i + 1));
        i += 1;
    }
    if fuel == 0 {
        proof {
            assert forall|entries: Seq<(Vec<u8>, Nbt)>, end: int|
                #[trigger] entries_at(b@, pos as int, entries, end) implies end - pos
                > fuel + 1 by {
                if entries.len() == 0 {
                    assert((entries_bytes(entries) + seq![0u8])[0] == b@.subrange(
                        pos as int,
                        end as int,
                    )[0]);
                    assert(b@[pos as int] == 0);
                    assert(false);
                } else {
                    lemma_entry_head(b@, pos as int, entries, end);
                    lemma_payload_min(entries[0].1);
                    assert(end - pos >= 5);
                }
            }
        }
        return None;
    }
    match parse_payload(b, nstart + nlen, et, fuel - 1) {
        Some((t, mid)) => {
            match parse_entries(b, mid, fuel - 1) {
                Some((mut rest, end)) => {
                    proof {
                        assert(entry_bytes(name@, t) =~= b@.subrange(pos as int, mid as int));
                    }
                    let ghost rest0 = rest@;
                    let ghost nm = name@;
                    rest.insert(0, (name, t));
                    assert(rest@.drop_first() =~= rest0);
                    assert(rest@[0].0@ == nm && rest@[0].1 == t);
                    assert(entries_bytes(rest@) == entry_bytes(nm, t) + entries_bytes(
                        rest0,
                    ));
                    assert(entries_bytes(rest@) + seq![0u8] =~= entry_bytes(nm, t) + (
                    entries_bytes(rest0) + seq![0u8]));
                    assert(b@.subrange(pos as int, mid as int) + b@.subrange(
                        mid as int,
                        end as int,
                    ) =~= b@.subrange(pos as int, end as int));
                    assert(entries_bytes(rest@) + seq![0u8] == b@.subrange(
                        pos as int,
                        end as int,
                    ));
                    Some((rest, end))
                },
                None => {
                    proof {
                        assert forall|entries: Seq<(Vec<u8>, Nbt)>, end: int|
                            #[trigger] entries_at(b@, pos as int, entries, end)
                            implies end - pos > fuel + 1 by {
                            if entries.len() == 0 {
                                assert((entries_bytes(entries) + seq![0u8])[0]
                                    == b@.subrange(pos as int, end as int)[0]);
                                assert(b@[pos as int] == 0);
                                assert(false);
                            } else {
                                lemma_entry_head(b@, pos as int, entries, end);
                                let n0 = entries[0].0@.len() as int;
                                let p0 = payload(entries[0].1).len() as int;
                                lemma_be2_inject(n0, nlen as int);
                                let vstart = nstart + nlen;
                                let sp = b@.skip(vstart as int);
                                assert forall|j: int|
                                    0 <= j < p0 implies payload(entries[0].1)[j]
                                    == sp[j] by {
                                    assert(payload(entries[0].1)[j] == b@.subrange(
                                        pos + 3 + n0,
                                        pos + 3 + n0 + p0,
                                    )[j]);
                                }
                                assert(payload(entries[0].1) =~= sp.subrange(0, p0));
                                assert forall|j: int|
                                    0 <= j < mid - vstart implies payload(t)[j]
                                    == sp[j] by {
                                    assert(payload(t)[j] == b@[vstart + j]);
                                }
                                assert(payload(t) =~= sp.subrange(0, mid - vstart));
                                lemma_node_extent(
                                    t,
                                    entries[0].1,
                                    sp,
                                    mid - vstart,
                                    p0,
                                );
                                assert(p0 == mid - vstart);
                                assert(entries_at(
                                    b@,
                                    mid as int,
                                    entries.drop_first(),
                                    end,
                                ));
                                assert(end - mid > fuel);
                            }
                        }
                    }
                    None
                },
            }
        },
        None => {
            proof {
                assert forall|entries: Seq<(Vec<u8>, Nbt)>, end: int|
                    #[trigger] entries_at(b@, pos as int, entries, end) implies end - pos
                    > fuel + 1 by {
                    if entries.len() == 0 {
                        assert((entries_bytes(entries) + seq![0u8])[0] == b@.subrange(
                            pos as int,
                            end as int,
                        )[0]);
                        assert(b@[pos as int] == 0);
                        assert(false);
                    } else {
                        lemma_entry_head(b@, pos as int, entries, end);
                        let n0 = entries[0].0@.len() as int;
                        let p0 = payload(entries[0].1).len() as int;
                        lemma_be2_inject(n0, nlen as int);
                        assert(node_at(
                            b@,
                            (nstart + nlen) as int,
                            et,
                            entries[0].1,
                            nstart + nlen + p0,
                        ));
                        assert(p0 > fuel - 1);
                        assert(end - pos >= 3 + nlen + p0 + 1);
                    }
                }
            }
            None
        },
    }
}

/// Parses a whole document: one named root node, which the chunk format
/// requires to be a compound. Trailing bytes after the document are left
/// unread and reported through the returned end position. A `None` means
/// no well-formed compound document begins these bytes.
#[verifier::loop_isolation(false)]
pub fn parse_root(b: &Vec<u8>) -> (r: Option<(Vec<u8>, Nbt, usize)>)
    ensures
        match r {
            Some((name, t, end)) => {
                &&& end <= b@.len()
                &&& t is Compound
                &&& wf(t)
                &&& name@.len() < 0x10000
                &&& root_bytes(name@, t) == b@.subrange(0, end as int)
            },
            None => forall|name: Seq<u8>, t: Nbt, end: int|
                !#[trigger] root_at(b@, name, t, end),
        },
{
    let len: usize = b.len();
    if len < 3 {
        proof {
            assert forall|name: Seq<u8>, t: Nbt, end: int|
                !#[trigger] root_at(b@, name, t, end) by {
                if root_at(b@, name, t, end) {
                    lemma_payload_min(t);
                    assert(root_bytes(name, t).len() == end);
                    assert(end >= 4);
                    assert(false);
                }
            }
        }
        return None;
    }
    if b[0] != 10 {
        proof {
            assert forall|name: Seq<u8>, t: Nbt, end: int|
                !#[trigger] root_at(b@, name, t, end) by {
                if root_at(b@, name, t, end) {
                    lemma_payload_min(t);
                    assert(root_bytes(name, t).len() == end);
                    assert(root_bytes(name, t)[0] == tag_of(t));
                    assert(root_bytes(name, t)[0] == b@.subrange(0, end as int)[0]);
                    assert(b@[0] == 10);
                    assert(false);
                }
            }
        }
        return None;
    }
    let nlen: usize = read_be2(b, 1) as usize;
    let nstart: usize = 3;
    if nlen > len - nstart {
        proof {
            assert forall|name: Seq<u8>, t: Nbt, end: int|
                !#[trigger] root_at(b@, name, t, end) by {
                if root_at(b@, name, t, end) {
                    lemma_payload_min(t);
                    let w = root_bytes(name, t);
                    assert(w.len() == end);
                    assert forall|j: int| 0 <= j < 2 implies be2(name.len() as int)[j]
                        == be2(nlen as int)[j] by {
                        assert(w[1 + j] == be2(name.len() as int)[j]);
                        assert(w[1 + j] == b@.subrange(0, end as int)[1 + j]);
                        assert(be2(nlen as int)[j] == b@.subrange(1, 3)[j]);
                    }
                    assert(be2(name.len() as int) =~= be2(nlen as int));
                    lemma_be2_inject(name.len() as int, nlen as int);
                    assert(end >= 3 + nlen + 1);
                    assert(false);
                }
            }
        }
        return None;
    }
    let mut name: Vec<u8> = Vec::new();
    let mut i: usize = 0;
    while i < nlen
        invariant
            i <= nlen,
            nstart + nlen <= b@.len(),
            name@ == b@.subrange(nstart as int, nstart + i),
        decreases nlen - i,
    {
        name.push(b[nstart + i]);
        assert(name@ =~= b@.subrange(nstart as int, nstart + i + 1));
        i += 1;
    }
    match parse_payload(b, nstart + nlen, 10, len) {
        Some((t, end)) => {
            assert(root_bytes(name@, t) =~= b@.subrange(0, end as int));
            Some((name, t, end))
        },
        None => {
            proof {
                assert forall|wname: Seq<u8>, t: Nbt, end: int|
                    !#[trigger] root_at(b@, wname, t, end) by {
                    if root_at(b@, wname, t, end) {
                        let w = root_bytes(wname, t);
                        let p = payload(t).len() as int;
                        assert(w.len() == end);
                        assert forall|j: int| 0 <= j < 2 implies be2(
                            wname.len() as int,
                        )[j] == be2(nlen as int)[j] by {
                            assert(w[1 + j] == be2(wname.len() as int)[j]);
                            assert(w[1 + j] == b@.subrange(0, end as int)[1 + j]);
                            assert(be2(nlen as int)[j] == b@.subrange(1, 3)[j]);
                        }
                        assert(be2(wname.len() as int) =~= be2(nlen as int));
                        lemma_be2_inject(wname.len() as int, nlen as int);
                        assert forall|j: int|
                            0 <= j < p implies payload(t)[j] == b@[nstart + nlen + j] by {
                            assert(w[3 + nlen + j] == payload(t)[j]);
                            assert(w[3 + nlen + j] == b@.subrange(0, end as int)[3 + nlen
                                + j]);
                        }
                        assert(payload(t) =~= b@.subrange(
                            (nstart + nlen) as int,
                            nstart + nlen + p,
                        ));
                        assert(node_at(b@, (nstart + nlen) as int, 10, t, nstart + nlen + p));
                        assert(p > len);
                        assert(false);
                    }
                }
            }
            None
        },
    }
}

/// Encodes a whole document: the root node under the given name.
pub fn encode_root(name: &Vec<u8>, t: &Nbt) -> (r: Vec<u8>)
    requires
        wf(*t),
        name@.len() < 0x10000,
    ensures
        r@ == root_bytes(name@, *t),
{
    let mut out: Vec<u8> = Vec::new();
    out.push(t.tag());
    push_be2(&mut out, name.len() as u32);
    push_bytes(&mut out, name);
    encode_payload(t, &mut out);
    assert(out@ =~= root_bytes(name@, *t));
    out
}

} // verus!

