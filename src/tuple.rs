//! Heap tuples: a null bitmap and the concatenated encodings of the present
//! values, in attribute order; and the schema records that describe them.
use vstd::prelude::*;

use crate::Error;

verus! {

/// Type identifiers of the supported value kinds.
pub const BOOL_TYPE_OID: u32 = 16;

pub const INT8_TYPE_OID: u32 = 20;

pub const INT4_TYPE_OID: u32 = 23;

pub const TEXT_TYPE_OID: u32 = 25;

/// A value of an attribute.
#[derive(Debug, Clone, PartialEq, Eq)]
pub enum Datum {
    Bool(bool),
    Int32(i32),
    Int64(i64),
    /// UTF-8 bytes.
    Text(Vec<u8>),
}

/// What a `Datum` stands for.
pub enum DatumView {
    Bool(bool),
    Int32(i32),
    Int64(i64),
    Text(Seq<u8>),
}

impl View for Datum {
    type V = DatumView;

    open spec fn view(&self) -> DatumView {
        match self {
            Datum::Bool(b) => DatumView::Bool(*b),
            Datum::Int32(v) => DatumView::Int32(*v),
            Datum::Int64(v) => DatumView::Int64(*v),
            Datum::Text(t) => DatumView::Text(t@),
        }
    }
}

pub open spec fn opt_view(v: Option<Datum>) -> Option<DatumView> {
    match v {
        Some(d) => Some(d@),
        None => None,
    }
}

/// The views of a row of values.
pub open spec fn row_view(vs: Seq<Option<Datum>>) -> Seq<Option<DatumView>> {
    vs.map_values(|v: Option<Datum>| opt_view(v))
}

/// Little-endian bytes of a 32-bit value.
pub open spec fn le4(v: u32) -> Seq<u8> {
    seq![(v % 256) as u8, ((v / 256) % 256) as u8, ((v / 65536) % 256) as u8, (v / 16777216) as u8]
}

/// Little-endian bytes of a 64-bit value.
pub open spec fn le8(v: u64) -> Seq<u8> {
    le4((v % 4294967296) as u32) + le4((v / 4294967296) as u32)
}

pub open spec fn get_u32(b: Seq<u8>) -> u32 {
    (b[0] as int + b[1] as int * 256 + b[2] as int * 65536 + b[3] as int * 16777216) as u32
}

pub open spec fn get_u64(b: Seq<u8>) -> u64 {
    (get_u32(b) as int + get_u32(b.subrange(4, 8)) as int * 4294967296) as u64
}

/// Whether `d` is a value of type `ty`.
pub open spec fn typed(d: DatumView, ty: u32) -> bool {
    match d {
        DatumView::Bool(_) => ty == BOOL_TYPE_OID,
        DatumView::Int32(_) => ty == INT4_TYPE_OID,
        DatumView::Int64(_) => ty == INT8_TYPE_OID,
        DatumView::Text(t) => ty == TEXT_TYPE_OID && t.len() <= u32::MAX,
    }
}

/// Encoding of one value: one byte for a boolean, four or eight bytes
/// little-endian for an integer, a four-byte length then the bytes for text.
pub open spec fn enc_datum(d: DatumView) -> Seq<u8> {
    match d {
        DatumView::Bool(b) => seq![if b { 1u8 } else { 0u8 }],
        DatumView::Int32(v) => le4(v as u32),
        DatumView::Int64(v) => le8(v as u64),
        DatumView::Text(t) => le4(t.len() as u32) + t,
    }
}

/// The data region of a row: the encodings of its present values, in order.
pub open spec fn enc_row(vs: Seq<Option<DatumView>>) -> Seq<u8>
    decreases vs.len(),
{
    if vs.len() == 0 {
        seq![]
    } else {
        (match vs[0] {
            Some(d) => enc_datum(d),
            None => seq![],
        }) + enc_row(vs.drop_first())
    }
}

/// Bit `i` of a null bitmap: set when attribute `i` is present. Bits past
/// the end of the bitmap read as clear.
pub open spec fn bit(bm: Seq<u8>, i: int) -> bool {
    0 <= i && i / 8 < bm.len() && (bm[i / 8] >> ((i % 8) as u8)) & 1u8 == 1u8
}

/// `bm` is the null bitmap of `vs`: one bit per value, set iff the value is
/// present, in `ceil(n / 8)` bytes whose remaining bits are clear.
pub open spec fn bitmap_of(bm: Seq<u8>, vs: Seq<Option<DatumView>>) -> bool {
    &&& bm.len() == (vs.len() + 7) / 8
    &&& forall|i: int| 0 <= i < vs.len() ==> #[trigger] bit(bm, i) == vs[i] is Some
    &&& forall|i: int| vs.len() <= i < 8 * bm.len() ==> !#[trigger] bit(bm, i)
}

/// The row agrees with the attribute types.
pub open spec fn row_typed(vs: Seq<Option<DatumView>>, types: Seq<u32>) -> bool {
    &&& vs.len() == types.len()
    &&& forall|i: int| 0 <= i < vs.len() ==> (#[trigger] vs[i] matches Some(d) ==> typed(d, types[i]))
}

/// Reads one value of type `ty` from the front of `data`: the value and the
/// number of bytes it takes.
pub open spec fn parse_datum(ty: u32, data: Seq<u8>) -> Option<(DatumView, nat)> {
    if ty == BOOL_TYPE_OID {
        if data.len() >= 1 && data[0] == 1 {
            Some((DatumView::Bool(true), 1))
        } else if data.len() >= 1 && data[0] == 0 {
            Some((DatumView::Bool(false), 1))
        } else {
            None
        }
    } else if ty == INT4_TYPE_OID {
        if data.len() >= 4 {
            Some((DatumView::Int32(get_u32(data) as i32), 4))
        } else {
            None
        }
    } else if ty == INT8_TYPE_OID {
        if data.len() >= 8 {
            Some((DatumView::Int64(get_u64(data) as i64), 8))
        } else {
            None
        }
    } else if ty == TEXT_TYPE_OID {
        if data.len() >= 4 && data.len() - 4 >= get_u32(data) {
            Some((DatumView::Text(data.subrange(4, 4 + get_u32(data))), (4 + get_u32(data)) as nat))
        } else {
            None
        }
    } else {
        None
    }
}

pub open spec fn prepend(x: Option<DatumView>, o: Option<Seq<Option<DatumView>>>) -> Option<Seq<Option<DatumView>>> {
    match o {
        Some(s) => Some(seq![x] + s),
        None => None,
    }
}

/// Reads the values of attributes `i..` from `data`, which must be used up exactly.
pub open spec fn parse_row(types: Seq<u32>, bm: Seq<u8>, i: nat, data: Seq<u8>) -> Option<Seq<Option<DatumView>>>
    decreases types.len() - i,
{
    if i >= types.len() {
        if data.len() == 0 {
            Some(seq![])
        } else {
            None
        }
    } else if !bit(bm, i as int) {
        prepend(None, parse_row(types, bm, i + 1, data))
    } else {
        match parse_datum(types[i as int], data) {
            Some((d, n)) => prepend(Some(d), parse_row(types, bm, i + 1, data.subrange(n as int, data.len() as int))),
            None => None,
        }
    }
}

proof fn lemma_le4(v: u32)
    ensures
        get_u32(le4(v)) == v,
        le4(v).len() == 4,
{
    assert(get_u32(le4(v)) == v) by (nonlinear_arith);
}

proof fn lemma_le8(v: u64)
    ensures
        get_u64(le8(v)) == v,
        le8(v).len() == 8,
{
    lemma_le4((v % 4294967296) as u32);
    lemma_le4((v / 4294967296) as u32);
    assert(le8(v).subrange(0, 4) =~= le4((v % 4294967296) as u32));
    assert(le8(v).subrange(4, 8) =~= le4((v / 4294967296) as u32));
    assert(get_u32(le8(v)) == get_u32(le8(v).subrange(0, 4)));
    assert(get_u64(le8(v)) == v) by (nonlinear_arith)
        requires
            get_u32(le8(v)) == (v % 4294967296) as u32,
            get_u32(le8(v).subrange(4, 8)) == (v / 4294967296) as u32,
    ;
}

proof fn lemma_parse_datum(d: DatumView, ty: u32, rest: Seq<u8>)
    requires
        typed(d, ty),
    ensures
        parse_datum(ty, enc_datum(d) + rest) == Some((d, enc_datum(d).len())),
{
    let e = enc_datum(d) + rest;
    match d {
        DatumView::Bool(b) => {},
        DatumView::Int32(v) => {
            lemma_le4(v as u32);
            assert(get_u32(e) == get_u32(le4(v as u32)));
            assert((v as u32) as i32 == v) by (bit_vector);
        },
        DatumView::Int64(v) => {
            lemma_le8(v as u64);
            assert(get_u32(e) == get_u32(le8(v as u64)));
            assert(e.subrange(4, 8) =~= le8(v as u64).subrange(4, 8));
            assert(get_u64(e) == get_u64(le8(v as u64)));
            assert((v as u64) as i64 == v) by (bit_vector);
        },
        DatumView::Text(t) => {
            lemma_le4(t.len() as u32);
            assert(get_u32(e) == get_u32(le4(t.len() as u32)));
            assert(e.subrange(4, 4 + t.len() as int) =~= t);
        },
    }
}

proof fn lemma_parse_enc(types: Seq<u32>, bm: Seq<u8>, vs: Seq<Option<DatumView>>, i: nat, rest: Seq<u8>)
    requires
        row_typed(vs, types),
        bitmap_of(bm, vs),
        i <= vs.len(),
        rest.len() == 0,
    ensures
        parse_row(types, bm, i, enc_row(vs.subrange(i as int, vs.len() as int)) + rest) == Some(vs.subrange(i as int, vs.len() as int)),
    decreases vs.len() - i,
{
    let tail = vs.subrange(i as int, vs.len() as int);
    if i == vs.len() {
        assert(enc_row(tail) + rest =~= seq![]);
        assert(tail =~= seq![]);
    } else {
        lemma_parse_enc(types, bm, vs, i + 1, rest);
        let next = vs.subrange(i + 1 as int, vs.len() as int);
        assert(tail.drop_first() =~= next);
        assert(tail =~= seq![vs[i as int]] + next);
        match vs[i as int] {
            Some(d) => {
                assert(enc_row(tail) + rest =~= enc_datum(d) + (enc_row(next) + rest));
                lemma_parse_datum(d, types[i as int], enc_row(next) + rest);
                assert((enc_row(tail) + rest).subrange(enc_datum(d).len() as int, (enc_row(tail) + rest).len() as int) =~= enc_row(next) + rest);
            },
            None => {
                assert(enc_row(tail) + rest =~= enc_row(next) + rest);
            },
        }
    }
}

/// Decoding the data region of a row against the types it was encoded with,
/// and the bitmap built for it, gives the row back.
pub proof fn lemma_row_round_trip(types: Seq<u32>, bm: Seq<u8>, vs: Seq<Option<DatumView>>)
    requires
        row_typed(vs, types),
        bitmap_of(bm, vs),
    ensures
        parse_row(types, bm, 0, enc_row(vs)) == Some(vs),
{
    lemma_parse_enc(types, bm, vs, 0, seq![]);
    assert(vs.subrange(0, vs.len() as int) =~= vs);
    assert(enc_row(vs) + seq![] =~= enc_row(vs));
}


proof fn lemma_enc_row_push(vs: Seq<Option<DatumView>>, x: Option<DatumView>)
    ensures
        enc_row(vs.push(x)) == enc_row(vs) + match x {
            Some(d) => enc_datum(d),
            None => seq![],
        },
    decreases vs.len(),
{
    let e = match x {
        Some(d) => enc_datum(d),
        None => Seq::<u8>::empty(),
    };
    if vs.len() == 0 {
        assert(vs.push(x).drop_first() =~= seq![]);
        assert(vs.push(x)[0] == x);
        assert(enc_row(vs.push(x).drop_first()) == Seq::<u8>::empty());
        assert(enc_row(vs.push(x)) == e + enc_row(vs.push(x).drop_first()));
        assert(enc_row(vs.push(x)) =~= e);
    } else {
        lemma_enc_row_push(vs.drop_first(), x);
        assert(vs.push(x).drop_first() =~= vs.drop_first().push(x));
        let h = match vs[0] {
            Some(d) => enc_datum(d),
            None => Seq::<u8>::empty(),
        };
        assert(enc_row(vs.push(x)) =~= h + (enc_row(vs.drop_first()) + e));
    }
}

proof fn lemma_set_bit(b: u8, k: u8, j: u8)
    requires
        k < 8,
        j < 8,
    ensures
        ((b | (1u8 << k)) >> j) & 1u8 == (if j == k { 1u8 } else { (b >> j) & 1u8 }),
{
    assert(((b | (1u8 << k)) >> j) & 1u8 == (if j == k { 1u8 } else { (b >> j) & 1u8 })) by (bit_vector)
        requires
            k < 8,
            j < 8,
    ;
}

proof fn lemma_zero_bit(j: u8)
    ensures
        (0u8 >> j) & 1u8 == 0u8,
{
    assert((0u8 >> j) & 1u8 == 0u8) by (bit_vector);
}

/// Schema record of one attribute.
#[derive(Debug, Clone, PartialEq, Eq)]
pub struct PgAttribute {
    /// Relation the attribute belongs to.
    pub attrelid: u32,
    /// Attribute name, UTF-8.
    pub attname: Vec<u8>,
    /// Type of the attribute's values.
    pub atttypid: u32,
    /// Size of a value in bytes; -1 for text.
    pub attlen: i16,
    /// Position of the attribute, from 1.
    pub attnum: u16,
    /// Whether the attribute rejects NULL.
    pub attnotnull: bool,
}

/// Ordered attributes of a relation.
#[derive(Debug, Clone, PartialEq, Eq)]
pub struct TupleDesc {
    pub attrs: Vec<PgAttribute>,
}

impl TupleDesc {
    /// The attribute types, in order.
    pub open spec fn types(&self) -> Seq<u32> {
        self.attrs@.map_values(|a: PgAttribute| a.atttypid)
    }
}

/// Header of a heap tuple.
#[derive(Debug, Clone, PartialEq, Eq)]
pub struct HeapTupleHeader {
    /// One bit per attribute, least significant bit first; set when present.
    pub null_bitmap: Vec<u8>,
}

/// A tuple: its null bitmap and the encodings of its present values.
#[derive(Debug, Clone, PartialEq, Eq)]
pub struct HeapTuple {
    pub header: HeapTupleHeader,
    pub data: Vec<u8>,
}

/// Little-endian bytes of a 16-bit value.
pub open spec fn le2(v: u16) -> Seq<u8> {
    seq![(v % 256) as u8, (v / 256) as u8]
}

/// Framing of a tuple: the bitmap's length in two bytes, the bitmap, the data.
pub open spec fn frame(bm: Seq<u8>, data: Seq<u8>) -> Seq<u8> {
    le2(bm.len() as u16) + bm + data
}

/// Largest null bitmap, in bytes.
pub const MAX_BITMAP_LEN: usize = 65535;

fn push_le4(out: &mut Vec<u8>, v: u32)
    ensures
        final(out)@ == old(out)@ + le4(v),
{
    out.push((v % 256) as u8);
    out.push(((v / 256) % 256) as u8);
    out.push(((v / 65536) % 256) as u8);
    out.push((v / 16777216) as u8);
    assert(final(out)@ =~= old(out)@ + le4(v));
}

fn read_le4(data: &Vec<u8>, pos: usize) -> (r: u32)
    requires
        pos + 4 <= data.len(),
    ensures
        r == get_u32(data@.subrange(pos as int, data@.len() as int)),
{
    let r = data[pos] as u32 + data[pos + 1] as u32 * 256 + data[pos + 2] as u32 * 65536 + data[pos + 3] as u32 * 16777216;
    r
}

fn encode_datum(out: &mut Vec<u8>, d: &Datum)
    requires
        d@ matches DatumView::Text(t) ==> t.len() <= u32::MAX,
    ensures
        final(out)@ == old(out)@ + enc_datum(d@),
{
    match d {
        Datum::Bool(b) => {
            out.push(if *b { 1u8 } else { 0u8 });
            assert(final(out)@ =~= old(out)@ + enc_datum(d@));
        },
        Datum::Int32(v) => {
            push_le4(out, *v as u32);
        },
        Datum::Int64(v) => {
            let u = *v as u64;
            push_le4(out, (u % 4294967296) as u32);
            push_le4(out, (u / 4294967296) as u32);
            assert(final(out)@ =~= old(out)@ + enc_datum(d@));
        },
        Datum::Text(t) => {
            push_le4(out, t.len() as u32);
            let mut k: usize = 0;
            let ghost mid = out@;
            while k < t.len()
                invariant
                    out@ == mid + t@.subrange(0, k as int),
                    k <= t@.len(),
                decreases t@.len() - k,
            {
                out.push(t[k]);
                k = k + 1;
                assert(out@ =~= mid + t@.subrange(0, k as int));
            }
            assert(t@.subrange(0, k as int) =~= t@);
            assert(final(out)@ =~= old(out)@ + enc_datum(d@));
        },
    }
}

fn decode_datum(ty: u32, data: &Vec<u8>, pos: usize) -> (r: Option<(Datum, usize)>)
    requires
        pos <= data@.len(),
    ensures
        r matches Some((d, n)) ==> parse_datum(ty, data@.subrange(pos as int, data@.len() as int)) == Some((d@, n as nat))
            && pos + n <= data.len(),
        r is None ==> parse_datum(ty, data@.subrange(pos as int, data@.len() as int)) is None,
{
    let ghost rest = data@.subrange(pos as int, data@.len() as int);
    let avail = data.len() - pos;
    if ty == BOOL_TYPE_OID {
        if avail >= 1 && data[pos] == 1 {
            Some((Datum::Bool(true), 1))
        } else if avail >= 1 && data[pos] == 0 {
            Some((Datum::Bool(false), 1))
        } else {
            None
        }
    } else if ty == INT4_TYPE_OID {
        if avail >= 4 {
            Some((Datum::Int32(read_le4(data, pos) as i32), 4))
        } else {
            None
        }
    } else if ty == INT8_TYPE_OID {
        if avail >= 8 {
            let lo = read_le4(data, pos);
            let hi = read_le4(data, pos + 4);
            assert(data@.subrange(pos + 4, data@.len() as int) =~= rest.subrange(4, rest.len() as int));
            assert(get_u32(rest.subrange(4, 8)) == get_u32(rest.subrange(4, rest.len() as int)));
            let v = lo as u64 + hi as u64 * 4294967296;
            Some((Datum::Int64(v as i64), 8))
        } else {
            None
        }
    } else if ty == TEXT_TYPE_OID {
        if avail >= 4 {
            let n = read_le4(data, pos) as usize;
            if avail - 4 >= n {
                let t = crate::page::copy_range(data, pos + 4, pos + 4 + n);
                assert(t@ =~= rest.subrange(4, 4 + n as int));
                Some((Datum::Text(t), 4 + n))
            } else {
                None
            }
        } else {
            None
        }
    } else {
        None
    }
}

/// Whether bit `i` of the bitmap is set.
pub fn get_bit(bm: &Vec<u8>, i: usize) -> (r: bool)
    ensures
        r == bit(bm@, i as int),
{
    if i / 8 < bm.len() {
        (bm[i / 8] >> ((i % 8) as u8)) & 1u8 == 1u8
    } else {
        false
    }
}

impl HeapTuple {
    /// Builds the tuple of a row: its null bitmap and the encodings of its
    /// present values. Fails with `CodecError` when the row does not match
    /// the schema (count or types) or has more attributes than a bitmap holds.
    pub fn from_datums(desc: &TupleDesc, values: &Vec<Option<Datum>>) -> (r: Result<HeapTuple, Error>)
        ensures
            (row_typed(row_view(values@), desc.types()) && values@.len() <= 8 * MAX_BITMAP_LEN) <==> r is Ok,
            r matches Ok(t) ==> bitmap_of(t.header.null_bitmap@, row_view(values@))
                && t.data@ == enc_row(row_view(values@)),
            r matches Err(e) ==> e == Error::CodecError,
    {
        let n = values.len();
        if n != desc.attrs.len() || n > 8 * MAX_BITMAP_LEN {
            return Err(Error::CodecError);
        }
        let ghost vs = row_view(values@);
        let ghost types = desc.types();
        let mut k: usize = 0;
        while k < n
            invariant
                n == values@.len(),
                n == desc.attrs@.len(),
                vs == row_view(values@),
                types == desc.types(),
                k <= n,
                forall|i: int| 0 <= i < k ==> (#[trigger] vs[i] matches Some(d) ==> typed(d, types[i])),
            decreases n - k,
        {
            let ty = desc.attrs[k].atttypid;
            let ok = match &values[k] {
                None => true,
                Some(Datum::Bool(_)) => ty == BOOL_TYPE_OID,
                Some(Datum::Int32(_)) => ty == INT4_TYPE_OID,
                Some(Datum::Int64(_)) => ty == INT8_TYPE_OID,
                Some(Datum::Text(t)) => ty == TEXT_TYPE_OID && t.len() <= u32::MAX as usize,
            };
            if !ok {
                assert(!(vs[k as int] matches Some(d) ==> typed(d, types[k as int])));
                return Err(Error::CodecError);
            }
            k = k + 1;
        }
        let nbytes = (n + 7) / 8;
        let mut bm: Vec<u8> = vec![0u8; nbytes];
        let mut data: Vec<u8> = Vec::new();
        let mut i: usize = 0;
        proof {
            assert forall|j: int| 0 <= j < 8 * nbytes implies !#[trigger] bit(bm@, j) by {
                lemma_zero_bit((j % 8) as u8);
            }
            assert(vs.subrange(0, 0) =~= seq![]);
        }
        while i < n
            invariant
                n == values@.len(),
                vs == row_view(values@),
                row_typed(vs, types),
                nbytes == (n + 7) / 8,
                bm@.len() == nbytes,
                i <= n,
                forall|j: int| 0 <= j < i ==> #[trigger] bit(bm@, j) == vs[j] is Some,
                forall|j: int| i <= j < 8 * nbytes ==> !#[trigger] bit(bm@, j),
                data@ == enc_row(vs.subrange(0, i as int)),
            decreases n - i,
        {
            proof {
                lemma_enc_row_push(vs.subrange(0, i as int), vs[i as int]);
                assert(vs.subrange(0, i as int).push(vs[i as int]) =~= vs.subrange(0, i + 1));
            }
            match &values[i] {
                Some(d) => {
                    encode_datum(&mut data, d);
                    let ghost old_bm = bm@;
                    let byte = bm[i / 8] | (1u8 << ((i % 8) as u8));
                    bm.set(i / 8, byte);
                    proof {
                        assert forall|j: int| 0 <= j < 8 * nbytes implies #[trigger] bit(bm@, j) == (if j == i { true } else { bit(old_bm, j) }) by {
                            if j / 8 == i / 8 {
                                lemma_set_bit(old_bm[(i / 8) as int], (i % 8) as u8, (j % 8) as u8);
                            }
                        }
                    }
                },
                None => {},
            }
            i = i + 1;
        }
        proof {
            assert(vs.subrange(0, n as int) =~= vs);
        }
        Ok(HeapTuple { header: HeapTupleHeader { null_bitmap: bm }, data })
    }

    /// The row stored in the tuple, read against `desc`: one entry per
    /// attribute, `None` where its bit is clear (attributes past the end of
    /// the bitmap read as NULL). Fails with `CodecError` when the data region
    /// does not hold exactly the present values.
    pub fn datums(&self, desc: &TupleDesc) -> (r: Result<Vec<Option<Datum>>, Error>)
        ensures
            parse_row(desc.types(), self.header.null_bitmap@, 0, self.data@) is Some <==> r is Ok,
            r matches Ok(vs) ==> parse_row(desc.types(), self.header.null_bitmap@, 0, self.data@) == Some(row_view(vs@)),
            r matches Err(e) ==> e == Error::CodecError,
    {
        let ghost types = desc.types();
        let ghost bm = self.header.null_bitmap@;
        let ghost data = self.data@;
        let n = desc.attrs.len();
        let mut out: Vec<Option<Datum>> = Vec::new();
        let mut pos: usize = 0;
        let mut i: usize = 0;
        proof {
            assert(data.subrange(0, data.len() as int) =~= data);
            match parse_row(types, bm, 0, data) {
                Some(r0) => {
                    assert(row_view(out@) + r0 =~= r0);
                },
                None => {},
            }
        }
        while i < n
            invariant
                n == types.len(),
                types == desc.types(),
                bm == self.header.null_bitmap@,
                data == self.data@,
                i <= n,
                pos <= data.len(),
                parse_row(types, bm, 0, data) == match parse_row(types, bm, i as nat, data.subrange(pos as int, data.len() as int)) {
                    Some(rest) => Some(row_view(out@) + rest),
                    None => None,
                },
            decreases n - i,
        {
            let ghost rest = data.subrange(pos as int, data.len() as int);
            if !get_bit(&self.header.null_bitmap, i) {
                proof {
                    assert(row_view(out@.push(None)) =~= row_view(out@).push(None));
                    match parse_row(types, bm, (i + 1) as nat, rest) {
                        Some(r2) => {
                            assert(row_view(out@) + (seq![None] + r2) =~= row_view(out@).push(None) + r2);
                        },
                        None => {},
                    }
                }
                out.push(None);
            } else {
                match decode_datum(desc.attrs[i].atttypid, &self.data, pos) {
                    None => {
                        return Err(Error::CodecError);
                    },
                    Some((d, len)) => {
                        proof {
                            let dv = d@;
                            assert(row_view(out@.push(Some(d))) =~= row_view(out@).push(Some(dv)));
                            assert(rest.subrange(len as int, rest.len() as int) =~= data.subrange(pos + len, data.len() as int));
                            match parse_row(types, bm, (i + 1) as nat, data.subrange(pos + len, data.len() as int)) {
                                Some(r2) => {
                                    assert(row_view(out@) + (seq![Some(dv)] + r2) =~= row_view(out@).push(Some(dv)) + r2);
                                },
                                None => {},
                            }
                        }
                        out.push(Some(d));
                        pos = pos + len;
                    },
                }
            }
            i = i + 1;
        }
        if pos != self.data.len() {
            return Err(Error::CodecError);
        }
        proof {
            assert(data.subrange(pos as int, data.len() as int) =~= seq![]);
            assert(row_view(out@) + seq![] =~= row_view(out@));
        }
        Ok(out)
    }

    /// The tuple's bytes: the bitmap's length in two bytes, the bitmap, the
    /// data. Fails with `CodecError` when the bitmap is longer than `MAX_BITMAP_LEN`.
    pub fn encode(&self) -> (r: Result<Vec<u8>, Error>)
        ensures
            self.header.null_bitmap@.len() <= MAX_BITMAP_LEN <==> r is Ok,
            r matches Ok(b) ==> b@ == frame(self.header.null_bitmap@, self.data@),
            r matches Err(e) ==> e == Error::CodecError,
    {
        let m = self.header.null_bitmap.len();
        if m > MAX_BITMAP_LEN {
            return Err(Error::CodecError);
        }
        let mut out: Vec<u8> = Vec::new();
        out.push((m % 256) as u8);
        out.push((m / 256) as u8);
        let mut k: usize = 0;
        while k < m
            invariant
                m == self.header.null_bitmap@.len(),
                m <= MAX_BITMAP_LEN,
                k <= m,
                out@ == le2(m as u16) + self.header.null_bitmap@.subrange(0, k as int),
            decreases m - k,
        {
            out.push(self.header.null_bitmap[k]);
            k = k + 1;
            assert(out@ =~= le2(m as u16) + self.header.null_bitmap@.subrange(0, k as int));
        }
        let ghost mid = out@;
        let mut j: usize = 0;
        while j < self.data.len()
            invariant
                j <= self.data@.len(),
                out@ == mid + self.data@.subrange(0, j as int),
            decreases self.data@.len() - j,
        {
            out.push(self.data[j]);
            j = j + 1;
            assert(out@ =~= mid + self.data@.subrange(0, j as int));
        }
        assert(self.header.null_bitmap@.subrange(0, m as int) =~= self.header.null_bitmap@);
        assert(self.data@.subrange(0, j as int) =~= self.data@);
        Ok(out)
    }

    /// Splits framed bytes back into bitmap and data. Fails with
    /// `CodecError` when the bytes are shorter than the framing says.
    pub fn decode(bytes: &Vec<u8>) -> (r: Result<HeapTuple, Error>)
        ensures
            (bytes@.len() >= 2 && bytes@.len() - 2 >= crate::page::get_u16(bytes@, 0)) <==> r is Ok,
            r matches Ok(t) ==> bytes@ == frame(t.header.null_bitmap@, t.data@)
                && t.header.null_bitmap@.len() == crate::page::get_u16(bytes@, 0)
                && t.header.null_bitmap@.len() <= MAX_BITMAP_LEN,
            r matches Err(e) ==> e == Error::CodecError,
    {
        if bytes.len() < 2 {
            return Err(Error::CodecError);
        }
        let m = bytes[0] as usize + bytes[1] as usize * 256;
        if bytes.len() - 2 < m {
            return Err(Error::CodecError);
        }
        let bm = crate::page::copy_range(bytes, 2, 2 + m);
        let data = crate::page::copy_range(bytes, 2 + m, bytes.len());
        assert(bytes@ =~= frame(bm@, data@));
        Ok(HeapTuple { header: HeapTupleHeader { null_bitmap: bm }, data })
    }
}

/// Framing then splitting a tuple gives its bitmap and data back.
pub proof fn lemma_frame_round_trip(bm: Seq<u8>, data: Seq<u8>)
    requires
        bm.len() <= MAX_BITMAP_LEN,
    ensures
        frame(bm, data).len() >= 2,
        frame(bm, data).len() - 2 >= crate::page::get_u16(frame(bm, data), 0),
        frame(bm, data).subrange(2, 2 + bm.len() as int) == bm,
        frame(bm, data).subrange(2 + bm.len() as int, frame(bm, data).len() as int) == data,
{
    let f = frame(bm, data);
    assert(crate::page::get_u16(f, 0) == bm.len());
    assert(f.subrange(2, 2 + bm.len() as int) =~= bm);
    assert(f.subrange(2 + bm.len() as int, f.len() as int) =~= data);
}

} // verus!
