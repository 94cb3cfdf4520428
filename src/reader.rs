use vstd::bytes::{
    spec_u16_from_le_bytes, spec_u32_from_le_bytes, spec_u64_from_le_bytes, u16_from_le_bytes,
    u32_from_le_bytes, u64_from_le_bytes,
};
use vstd::prelude::*;
use vstd::slice::slice_subrange;

use crate::types::{
    file_type_name, model_as_u32, quant_name, type_of_tag, GGUFError, GGUFHeader, GGUFMetadataKV,
    GGUFValue, GGUFValueType, ValueModel, GGUF_MAGIC, GGUF_VERSION_MAX,
};

verus! {

/// Longest string a metadata entry may declare.
pub const MAX_STRING_LEN: u64 = 1_000_000;

/// Largest element count an array may declare.
pub const MAX_ARRAY_LEN: u64 = 10_000_000;

/// Why decoding stopped short of a value.
#[derive(Debug, Clone, PartialEq, Eq)]
pub enum ReadStop {
    /// The bytes ran out before the value ended.
    Eof,
    /// The bytes hold something the format forbids.
    Fail(GGUFError),
}

/// Characters that `String::from_utf8_lossy` makes of a byte sequence.
pub uninterp spec fn lossy_utf8(b: Seq<u8>) -> Seq<char>;

/// Relies on `String::from_utf8_lossy`: its text depends on the bytes alone.
#[verifier::external_body]
fn utf8_lossy(b: &[u8]) -> (r: String)
    ensures
        r@ == lossy_utf8(b@),
{
    String::from_utf8_lossy(b).into_owned()
}

/// Whether `n` bytes are there at offset `p`.
pub open spec fn avail(b: Seq<u8>, p: int, n: int) -> bool {
    0 <= p && p + n <= b.len()
}

pub open spec fn u16_at(b: Seq<u8>, p: int) -> u16 {
    spec_u16_from_le_bytes(b.subrange(p, p + 2))
}

pub open spec fn u32_at(b: Seq<u8>, p: int) -> u32 {
    spec_u32_from_le_bytes(b.subrange(p, p + 4))
}

pub open spec fn u64_at(b: Seq<u8>, p: int) -> u64 {
    spec_u64_from_le_bytes(b.subrange(p, p + 8))
}

/// A length-prefixed string at `p`: its characters and the offset after it.
pub open spec fn decode_string(b: Seq<u8>, p: int) -> Result<(Seq<char>, int), ReadStop> {
    if !avail(b, p, 8) {
        Err(ReadStop::Eof)
    } else {
        let n = u64_at(b, p);
        if n > MAX_STRING_LEN {
            Err(ReadStop::Fail(GGUFError::Oversize(n)))
        } else if !avail(b, p + 8, n as int) {
            Err(ReadStop::Eof)
        } else {
            Ok((lossy_utf8(b.subrange(p + 8, p + 8 + n)), p + 8 + n))
        }
    }
}

/// Size in bytes of a fixed-size value of type `t`.
pub open spec fn fixed_size(t: GGUFValueType) -> int {
    match t {
        GGUFValueType::Uint8 | GGUFValueType::Int8 | GGUFValueType::Bool => 1,
        GGUFValueType::Uint16 | GGUFValueType::Int16 => 2,
        GGUFValueType::Uint32 | GGUFValueType::Int32 | GGUFValueType::Float32 => 4,
        _ => 8,
    }
}

/// A value of fixed size at `p` (any type but string and array).
pub open spec fn fixed_value(b: Seq<u8>, p: int, t: GGUFValueType) -> ValueModel {
    match t {
        GGUFValueType::Uint8 => ValueModel::Uint8(b[p]),
        GGUFValueType::Int8 => ValueModel::Int8(b[p] as i8),
        GGUFValueType::Bool => ValueModel::Bool(b[p] != 0),
        GGUFValueType::Uint16 => ValueModel::Uint16(u16_at(b, p)),
        GGUFValueType::Int16 => ValueModel::Int16(u16_at(b, p) as i16),
        GGUFValueType::Uint32 => ValueModel::Uint32(u32_at(b, p)),
        GGUFValueType::Int32 => ValueModel::Int32(u32_at(b, p) as i32),
        GGUFValueType::Float32 => ValueModel::Float32(u32_at(b, p)),
        GGUFValueType::Uint64 => ValueModel::Uint64(u64_at(b, p)),
        GGUFValueType::Int64 => ValueModel::Int64(u64_at(b, p) as i64),
        _ => ValueModel::Float64(u64_at(b, p)),
    }
}

/// The value of type `t` encoded at `p`, and the offset after it.
pub open spec fn decode_value(b: Seq<u8>, p: int, t: GGUFValueType) -> Result<
    (ValueModel, int),
    ReadStop,
>
    decreases b.len() - p, 0int,
{
    if p < 0 || p > b.len() {
        Err(ReadStop::Eof)
    } else {
        match t {
            GGUFValueType::String => match decode_string(b, p) {
                Ok((s, e)) => Ok((ValueModel::Str(s), e)),
                Err(x) => Err(x),
            },
            GGUFValueType::Array => {
                if !avail(b, p, 4) {
                    Err(ReadStop::Eof)
                } else {
                    let raw = u32_at(b, p);
                    let n = u64_at(b, p + 4);
                    match type_of_tag(raw) {
                        None => Err(ReadStop::Fail(GGUFError::InvalidValueType(raw))),
                        Some(et) => if !avail(b, p + 4, 8) {
                            Err(ReadStop::Eof)
                        } else if n > MAX_ARRAY_LEN {
                            Err(ReadStop::Fail(GGUFError::Oversize(n)))
                        } else {
                            match decode_elems(b, p + 12, et, n as nat) {
                                Ok((items, e)) => Ok((ValueModel::Array(et, items), e)),
                                Err(x) => Err(x),
                            }
                        },
                    }
                }
            },
            _ => if avail(b, p, fixed_size(t)) {
                Ok((fixed_value(b, p, t), p + fixed_size(t)))
            } else {
                Err(ReadStop::Eof)
            },
        }
    }
}

/// `n` values of type `t` encoded one after another from `p`.
pub open spec fn decode_elems(b: Seq<u8>, p: int, t: GGUFValueType, n: nat) -> Result<
    (Seq<ValueModel>, int),
    ReadStop,
>
    decreases b.len() - p, 1int, n,
{
    if n == 0 {
        Ok((Seq::empty(), p))
    } else if p < 0 || p > b.len() {
        Err(ReadStop::Eof)
    } else {
        match decode_value(b, p, t) {
            Err(x) => Err(x),
            Ok((v, e)) => if e <= p || e > b.len() {
                Err(ReadStop::Eof)
            } else {
                match decode_elems(b, e, t, (n - 1) as nat) {
                    Ok((rest, f)) => Ok((seq![v] + rest, f)),
                    Err(x) => Err(x),
                }
            },
        }
    }
}

/// The exec form of a decoding outcome, seen as its model.
pub open spec fn value_outcome(r: Result<(GGUFValue, usize), ReadStop>) -> Result<
    (ValueModel, int),
    ReadStop,
> {
    match r {
        Ok((v, e)) => Ok((v@, e as int)),
        Err(x) => Err(x),
    }
}

fn read_u8(b: &Vec<u8>, pos: usize) -> (r: Option<u8>)
    ensures
        avail(b@, pos as int, 1) ==> r == Some(b@[pos as int]),
        !avail(b@, pos as int, 1) ==> r is None,
{
    if pos < b.len() {
        Some(b[pos])
    } else {
        None
    }
}

fn read_i8(b: &Vec<u8>, pos: usize) -> (r: Option<i8>)
    ensures
        avail(b@, pos as int, 1) ==> r == Some(b@[pos as int] as i8),
        !avail(b@, pos as int, 1) ==> r is None,
{
    match read_u8(b, pos) {
        Some(x) => Some(x as i8),
        None => None,
    }
}

fn read_bool(b: &Vec<u8>, pos: usize) -> (r: Option<bool>)
    ensures
        avail(b@, pos as int, 1) ==> r == Some(b@[pos as int] != 0),
        !avail(b@, pos as int, 1) ==> r is None,
{
    match read_u8(b, pos) {
        Some(x) => Some(x != 0),
        None => None,
    }
}

fn read_u16(b: &Vec<u8>, pos: usize) -> (r: Option<u16>)
    ensures
        avail(b@, pos as int, 2) ==> r == Some(u16_at(b@, pos as int)),
        !avail(b@, pos as int, 2) ==> r is None,
{
    if pos <= b.len() && b.len() - pos >= 2 {
        Some(u16_from_le_bytes(slice_subrange(b.as_slice(), pos, pos + 2)))
    } else {
        None
    }
}

fn read_i16(b: &Vec<u8>, pos: usize) -> (r: Option<i16>)
    ensures
        avail(b@, pos as int, 2) ==> r == Some(u16_at(b@, pos as int) as i16),
        !avail(b@, pos as int, 2) ==> r is None,
{
    match read_u16(b, pos) {
        Some(x) => Some(x as i16),
        None => None,
    }
}

fn read_u32(b: &Vec<u8>, pos: usize) -> (r: Option<u32>)
    ensures
        avail(b@, pos as int, 4) ==> r == Some(u32_at(b@, pos as int)),
        !avail(b@, pos as int, 4) ==> r is None,
{
    if pos <= b.len() && b.len() - pos >= 4 {
        Some(u32_from_le_bytes(slice_subrange(b.as_slice(), pos, pos + 4)))
    } else {
        None
    }
}

fn read_i32(b: &Vec<u8>, pos: usize) -> (r: Option<i32>)
    ensures
        avail(b@, pos as int, 4) ==> r == Some(u32_at(b@, pos as int) as i32),
        !avail(b@, pos as int, 4) ==> r is None,
{
    match read_u32(b, pos) {
        Some(x) => Some(x as i32),
        None => None,
    }
}

fn read_u64(b: &Vec<u8>, pos: usize) -> (r: Option<u64>)
    ensures
        avail(b@, pos as int, 8) ==> r == Some(u64_at(b@, pos as int)),
        !avail(b@, pos as int, 8) ==> r is None,
{
    if pos <= b.len() && b.len() - pos >= 8 {
        Some(u64_from_le_bytes(slice_subrange(b.as_slice(), pos, pos + 8)))
    } else {
        None
    }
}

fn read_i64(b: &Vec<u8>, pos: usize) -> (r: Option<i64>)
    ensures
        avail(b@, pos as int, 8) ==> r == Some(u64_at(b@, pos as int) as i64),
        !avail(b@, pos as int, 8) ==> r is None,
{
    match read_u64(b, pos) {
        Some(x) => Some(x as i64),
        None => None,
    }
}

fn read_string(b: &Vec<u8>, pos: usize) -> (r: Result<(String, usize), ReadStop>)
    ensures
        match r {
            Ok((s, e)) => decode_string(b@, pos as int) == Ok::<(Seq<char>, int), ReadStop>(
                (s@, e as int),
            ),
            Err(x) => decode_string(b@, pos as int) == Err::<(Seq<char>, int), ReadStop>(x),
        },
{
    let n = match read_u64(b, pos) {
        Some(n) => n,
        None => return Err(ReadStop::Eof),
    };
    if n > MAX_STRING_LEN {
        return Err(ReadStop::Fail(GGUFError::Oversize(n)));
    }
    let blen = b.len();
    assert(pos + 8 <= blen);
    let start = pos + 8;
    if b.len() - start < n as usize {
        return Err(ReadStop::Eof);
    }
    let end = start + n as usize;
    let s = utf8_lossy(slice_subrange(b.as_slice(), start, end));
    Ok((s, end))
}

/// Decode the value of type `t` at `pos`. An array that declares more than
/// `MAX_ARRAY_LEN` elements is refused before any element is read.
pub fn read_value(b: &Vec<u8>, pos: usize, t: GGUFValueType) -> (r: Result<(GGUFValue, usize), ReadStop>)
    requires
        pos <= b.len(),
    ensures
        value_outcome(r) == decode_value(b@, pos as int, t),
        r matches Ok((_, e)) ==> pos < e <= b.len(),
        t == GGUFValueType::Array && avail(b@, pos as int, 12) && type_of_tag(u32_at(b@, pos as int)) is Some
            && u64_at(b@, pos + 4) > MAX_ARRAY_LEN ==> r == Err::<(GGUFValue, usize), ReadStop>(
            ReadStop::Fail(GGUFError::Oversize(u64_at(b@, pos + 4))),
        ),
    decreases b.len() - pos,
{
    let eof = Err(ReadStop::Eof);
    match t {
        GGUFValueType::Uint8 => match read_u8(b, pos) {
            Some(x) => Ok((GGUFValue::Uint8(x), pos + 1)),
            None => eof,
        },
        GGUFValueType::Int8 => match read_i8(b, pos) {
            Some(x) => Ok((GGUFValue::Int8(x), pos + 1)),
            None => eof,
        },
        GGUFValueType::Bool => match read_bool(b, pos) {
            Some(x) => Ok((GGUFValue::Bool(x), pos + 1)),
            None => eof,
        },
        GGUFValueType::Uint16 => match read_u16(b, pos) {
            Some(x) => Ok((GGUFValue::Uint16(x), pos + 2)),
            None => eof,
        },
        GGUFValueType::Int16 => match read_i16(b, pos) {
            Some(x) => Ok((GGUFValue::Int16(x), pos + 2)),
            None => eof,
        },
        GGUFValueType::Uint32 => match read_u32(b, pos) {
            Some(x) => Ok((GGUFValue::Uint32(x), pos + 4)),
            None => eof,
        },
        GGUFValueType::Int32 => match read_i32(b, pos) {
            Some(x) => Ok((GGUFValue::Int32(x), pos + 4)),
            None => eof,
        },
        GGUFValueType::Float32 => match read_u32(b, pos) {
            Some(x) => Ok((GGUFValue::Float32(x), pos + 4)),
            None => eof,
        },
        GGUFValueType::Uint64 => match read_u64(b, pos) {
            Some(x) => Ok((GGUFValue::Uint64(x), pos + 8)),
            None => eof,
        },
        GGUFValueType::Int64 => match read_i64(b, pos) {
            Some(x) => Ok((GGUFValue::Int64(x), pos + 8)),
            None => eof,
        },
        GGUFValueType::Float64 => match read_u64(b, pos) {
            Some(x) => Ok((GGUFValue::Float64(x), pos + 8)),
            None => eof,
        },
        GGUFValueType::String => match read_string(b, pos) {
            Ok((s, e)) => Ok((GGUFValue::String(s), e)),
            Err(x) => Err(x),
        },
        GGUFValueType::Array => {
            let raw = match read_u32(b, pos) {
                Some(x) => x,
                None => return eof,
            };
            let et = match GGUFValueType::from_tag(raw) {
                Ok(et) => et,
                Err(e) => return Err(ReadStop::Fail(e)),
            };
            let blen = b.len();
            assert(pos + 4 <= blen);
            let n = match read_u64(b, pos + 4) {
                Some(x) => x,
                None => return eof,
            };
            if n > MAX_ARRAY_LEN {
                return Err(ReadStop::Fail(GGUFError::Oversize(n)));
            }
            let mut items: Vec<GGUFValue> = Vec::new();
            let mut cur: usize = pos + 12;
            let mut k: u64 = 0;
            while k < n
                invariant
                    pos + 12 <= cur <= b.len(),
                    k <= n <= MAX_ARRAY_LEN,
                    type_of_tag(raw) == Some(et),
                    items@.len() == k,
                    decode_value(b@, pos as int, t) == match decode_elems(b@, pos + 12, et, n as nat) {
                        Ok((vs, e)) => Ok::<(ValueModel, int), ReadStop>((ValueModel::Array(et, vs), e)),
                        Err(x) => Err(x),
                    },
                    decode_elems(b@, pos + 12, et, n as nat) == match decode_elems(
                        b@,
                        cur as int,
                        et,
                        (n - k) as nat,
                    ) {
                        Ok((rest, f)) => Ok::<(Seq<ValueModel>, int), ReadStop>(
                            (items@.map_values(|v: GGUFValue| v@) + rest, f),
                        ),
                        Err(x) => Err(x),
                    },
                decreases n - k,
            {
                match read_value(b, cur, et) {
                    Ok((v, e)) => {
                        proof {
                            assert(decode_elems(b@, cur as int, et, (n - k) as nat) == match decode_elems(
                                b@,
                                e as int,
                                et,
                                (n - k - 1) as nat,
                            ) {
                                Ok((rest, f)) => Ok::<(Seq<ValueModel>, int), ReadStop>(
                                    (seq![v@] + rest, f),
                                ),
                                Err(x) => Err(x),
                            });
                        }
                        let ghost prev = items@;
                        items.push(v);
                        proof {
                            assert(items@.map_values(|v: GGUFValue| v@) =~= prev.map_values(
                                |v: GGUFValue| v@,
                            ) + seq![items@[k as int]@]);
                            match decode_elems(b@, e as int, et, (n - k - 1) as nat) {
                                Ok((rest, f)) => {
                                    assert(prev.map_values(|v: GGUFValue| v@) + (seq![
                                        items@[k as int]@,
                                    ] + rest) =~= items@.map_values(|v: GGUFValue| v@) + rest);
                                },
                                Err(_) => {},
                            }
                        }
                        cur = e;
                        k = k + 1;
                    },
                    Err(x) => return Err(x),
                }
            }
            proof {
                assert(items@.map_values(|v: GGUFValue| v@) + Seq::<ValueModel>::empty()
                    =~= items@.map_values(|v: GGUFValue| v@));
            }
            let ghost iv = items@;
            let r = GGUFValue::Array(et, items);
            proof {
                crate::types::lemma_models_of(iv);
                assert(iv.map_values(|v: GGUFValue| v@) =~= iv.map_values(
                    |v: GGUFValue| crate::types::model_of(v),
                ));
            }
            Ok((r, cur))
        },
    }
}

/// Most bytes of a file that a quick scan reads.
pub const QUICK_SCAN_LIMIT: u64 = 8 * 1024 * 1024;

/// Offset of the first metadata entry: magic, version and the two counts.
pub const HEADER_LEN: usize = 24;

/// A metadata entry as a model: key, tag and value.
pub type KvModel = (Seq<char>, GGUFValueType, ValueModel);

pub open spec fn kv_model(kv: GGUFMetadataKV) -> KvModel {
    (kv.key@, kv.value_type, kv.value@)
}

pub open spec fn kvs_model(kvs: Seq<GGUFMetadataKV>) -> Seq<KvModel> {
    kvs.map_values(|kv: GGUFMetadataKV| kv_model(kv))
}

/// The fixed header at the start of a file.
pub open spec fn decode_header(b: Seq<u8>) -> Result<GGUFHeader, GGUFError> {
    if !avail(b, 0, 4) {
        Err(GGUFError::TruncatedHeader)
    } else if u32_at(b, 0) != GGUF_MAGIC {
        Err(GGUFError::InvalidMagic(u32_at(b, 0)))
    } else if !avail(b, 4, 4) {
        Err(GGUFError::TruncatedHeader)
    } else if u32_at(b, 4) > GGUF_VERSION_MAX {
        Err(GGUFError::UnsupportedVersion(u32_at(b, 4)))
    } else if !avail(b, 8, 16) {
        Err(GGUFError::TruncatedHeader)
    } else {
        Ok(GGUFHeader { version: u32_at(b, 4), tensor_count: u64_at(b, 8), metadata_kv_count: u64_at(b, 16) })
    }
}

/// One metadata entry at `p`: a key string, a tag and a value of that tag.
pub open spec fn decode_kv(b: Seq<u8>, p: int) -> Result<(KvModel, int), ReadStop> {
    match decode_string(b, p) {
        Err(x) => Err(x),
        Ok((k, e)) => if !avail(b, e, 4) {
            Err(ReadStop::Eof)
        } else {
            match type_of_tag(u32_at(b, e)) {
                None => Err(ReadStop::Fail(GGUFError::InvalidValueType(u32_at(b, e)))),
                Some(t) => match decode_value(b, e + 4, t) {
                    Ok((v, f)) => Ok(((k, t, v), f)),
                    Err(x) => Err(x),
                },
            }
        },
    }
}

/// Up to `n` entries from `p`. No entry starts at or past `limit`; an entry
/// that runs past the end of the bytes ends the list without an error.
pub open spec fn decode_kvs(b: Seq<u8>, p: int, limit: int, n: nat) -> Result<Seq<KvModel>, GGUFError>
    decreases n,
{
    if n == 0 || p >= limit {
        Ok(Seq::empty())
    } else {
        match decode_kv(b, p) {
            Ok((kv, e)) => match decode_kvs(b, e, limit, (n - 1) as nat) {
                Ok(rest) => Ok(seq![kv] + rest),
                Err(x) => Err(x),
            },
            Err(ReadStop::Eof) => Ok(Seq::empty()),
            Err(ReadStop::Fail(x)) => Err(x),
        }
    }
}

/// The value of the last entry with key `key`.
pub open spec fn lookup(kvs: Seq<KvModel>, key: Seq<char>) -> Option<ValueModel>
    decreases kvs.len(),
{
    if kvs.len() == 0 {
        None
    } else if kvs.last().0 == key {
        Some(kvs.last().2)
    } else {
        lookup(kvs.drop_last(), key)
    }
}

pub open spec fn text_of(v: Option<ValueModel>) -> Option<Seq<char>> {
    match v {
        Some(ValueModel::Str(s)) => Some(s),
        _ => None,
    }
}

pub open spec fn u32_of(v: Option<ValueModel>) -> Option<u32> {
    match v {
        Some(m) => model_as_u32(m),
        None => None,
    }
}

pub open spec fn opt_text(o: Option<String>) -> Option<Seq<char>> {
    match o {
        Some(s) => Some(s@),
        None => None,
    }
}

/// Architecture a file declares, `llama` where it declares none.
pub open spec fn arch_or_default(kvs: Seq<KvModel>) -> Seq<char> {
    match text_of(lookup(kvs, "general.architecture"@)) {
        Some(a) => a,
        None => "llama"@,
    }
}

/// Outcome of a quick scan of one file.
#[derive(Debug)]
pub struct QuickScanResult {
    pub file_path: String,
    pub file_size: u64,
    pub header: GGUFHeader,
    pub architecture: Option<String>,
    pub name: Option<String>,
    pub file_type: Option<u32>,
    pub file_type_name: Option<String>,
    pub context_length: Option<u32>,
    pub embedding_length: Option<u32>,
    pub chat_template: Option<String>,
    /// Every metadata entry that starts within the scan window.
    pub metadata: Vec<GGUFMetadataKV>,
}

/// What a quick scan finds in the entries `kvs`.
pub open spec fn scan_fields_match(q: QuickScanResult, kvs: Seq<KvModel>) -> bool {
    &&& kvs_model(q.metadata@) == kvs
    &&& opt_text(q.architecture) == text_of(lookup(kvs, "general.architecture"@))
    &&& opt_text(q.name) == text_of(lookup(kvs, "general.name"@))
    &&& q.file_type == u32_of(lookup(kvs, "general.file_type"@))
    &&& opt_text(q.file_type_name) == match q.file_type {
        Some(ft) => Some(quant_name(ft)),
        None => None::<Seq<char>>,
    }
    &&& q.context_length == u32_of(lookup(kvs, arch_or_default(kvs) + ".context_length"@))
    &&& q.embedding_length == u32_of(lookup(kvs, arch_or_default(kvs) + ".embedding_length"@))
    &&& opt_text(q.chat_template) == text_of(lookup(kvs, "tokenizer.chat_template"@))
}

fn read_kv(b: &Vec<u8>, pos: usize) -> (r: Result<(GGUFMetadataKV, usize), ReadStop>)
    ensures
        match r {
            Ok((kv, e)) => decode_kv(b@, pos as int) == Ok::<(KvModel, int), ReadStop>((kv_model(kv), e as int)),
            Err(x) => decode_kv(b@, pos as int) == Err::<(KvModel, int), ReadStop>(x),
        },
        r matches Ok((_, e)) ==> pos < e <= b.len(),
{
    let (key, e) = match read_string(b, pos) {
        Ok(x) => x,
        Err(x) => return Err(x),
    };
    let raw = match read_u32(b, e) {
        Some(x) => x,
        None => return Err(ReadStop::Eof),
    };
    let t = match GGUFValueType::from_tag(raw) {
        Ok(t) => t,
        Err(x) => return Err(ReadStop::Fail(x)),
    };
    let blen = b.len();
    assert(e + 4 <= blen);
    match read_value(b, e + 4, t) {
        Ok((value, f)) => Ok((GGUFMetadataKV { key, value_type: t, value }, f)),
        Err(x) => Err(x),
    }
}

/// Value of the last entry of `kvs` whose key is `key`.
fn find_value<'a>(kvs: &'a Vec<GGUFMetadataKV>, key: &String) -> (r: Option<&'a GGUFValue>)
    ensures
        match lookup(kvs_model(kvs@), key@) {
            Some(v) => r.is_some() && r.unwrap()@ == v,
            None => r.is_none(),
        },
{
    let mut i: usize = kvs.len();
    assert(kvs@.subrange(0, i as int) =~= kvs@);
    while i > 0
        invariant
            i <= kvs.len(),
            lookup(kvs_model(kvs@), key@) == lookup(kvs_model(kvs@.subrange(0, i as int)), key@),
        decreases i,
    {
        let ghost sub = kvs_model(kvs@.subrange(0, i as int));
        assert(sub.drop_last() =~= kvs_model(kvs@.subrange(0, i - 1)));
        if kvs[i - 1].key == *key {
            return Some(&kvs[i - 1].value);
        }
        i = i - 1;
    }
    None
}

fn find_text(kvs: &Vec<GGUFMetadataKV>, key: &String) -> (r: Option<String>)
    ensures
        opt_text(r) == text_of(lookup(kvs_model(kvs@), key@)),
{
    match find_value(kvs, key) {
        Some(v) => match v.as_str() {
            Some(s) => Some(String::from_str(s)),
            None => None,
        },
        None => None,
    }
}

fn find_u32(kvs: &Vec<GGUFMetadataKV>, key: &String) -> (r: Option<u32>)
    ensures
        r == u32_of(lookup(kvs_model(kvs@), key@)),
{
    match find_value(kvs, key) {
        Some(v) => v.as_u32(),
        None => None,
    }
}

/// Read the header and the metadata of a file from `data`, its first bytes
/// (up to the quick-scan window). `file_size` is the size of the whole file.
/// Entries are read while they start within the window, which is
/// `min(file_size, QUICK_SCAN_LIMIT)`; an entry cut off by the end of `data`
/// ends the list, and what came before it is kept.
pub fn quick_scan(file_path: String, file_size: u64, data: &Vec<u8>) -> (r: Result<QuickScanResult, GGUFError>)
    ensures
        match decode_header(data@) {
            Err(e) => r == Err::<QuickScanResult, GGUFError>(e),
            Ok(h) => {
                let limit = if file_size < QUICK_SCAN_LIMIT { file_size as int } else { QUICK_SCAN_LIMIT as int };
                match decode_kvs(data@, HEADER_LEN as int, limit, h.metadata_kv_count as nat) {
                    Err(e) => r == Err::<QuickScanResult, GGUFError>(e),
                    Ok(kvs) => r is Ok && {
                        let q = r->Ok_0;
                        &&& q.file_path@ == file_path@
                        &&& q.file_size == file_size
                        &&& q.header == h
                        &&& scan_fields_match(q, kvs)
                    },
                }
            },
        },
{
    let magic = match read_u32(data, 0) {
        Some(x) => x,
        None => return Err(GGUFError::TruncatedHeader),
    };
    if magic != GGUF_MAGIC {
        return Err(GGUFError::InvalidMagic(magic));
    }
    let version = match read_u32(data, 4) {
        Some(x) => x,
        None => return Err(GGUFError::TruncatedHeader),
    };
    if version > GGUF_VERSION_MAX {
        return Err(GGUFError::UnsupportedVersion(version));
    }
    let tensor_count = match read_u64(data, 8) {
        Some(x) => x,
        None => return Err(GGUFError::TruncatedHeader),
    };
    let metadata_kv_count = match read_u64(data, 16) {
        Some(x) => x,
        None => return Err(GGUFError::TruncatedHeader),
    };
    let header = GGUFHeader { version, tensor_count, metadata_kv_count };
    assert(decode_header(data@) == Ok::<GGUFHeader, GGUFError>(header));
    let limit: u64 = if file_size < QUICK_SCAN_LIMIT { file_size } else { QUICK_SCAN_LIMIT };

    let mut metadata: Vec<GGUFMetadataKV> = Vec::new();
    let mut pos: usize = HEADER_LEN;
    let mut k: u64 = 0;
    let ghost total = decode_kvs(data@, HEADER_LEN as int, limit as int, metadata_kv_count as nat);
    loop
        invariant
            HEADER_LEN <= pos <= data.len(),
            k <= metadata_kv_count,
            decode_header(data@) == Ok::<GGUFHeader, GGUFError>(header),
            header.metadata_kv_count == metadata_kv_count,
            limit == if file_size < QUICK_SCAN_LIMIT { file_size } else { QUICK_SCAN_LIMIT },
            total == decode_kvs(data@, HEADER_LEN as int, limit as int, metadata_kv_count as nat),
            total == match decode_kvs(data@, pos as int, limit as int, (metadata_kv_count - k) as nat) {
                Ok(rest) => Ok::<Seq<KvModel>, GGUFError>(kvs_model(metadata@) + rest),
                Err(x) => Err(x),
            },
        ensures
            total == Ok::<Seq<KvModel>, GGUFError>(kvs_model(metadata@)),
        decreases metadata_kv_count - k,
    {
        if k >= metadata_kv_count || pos as u64 >= limit {
            assert(decode_kvs(data@, pos as int, limit as int, (metadata_kv_count - k) as nat)
                == Ok::<Seq<KvModel>, GGUFError>(Seq::empty()));
            assert(kvs_model(metadata@) + Seq::<KvModel>::empty() =~= kvs_model(metadata@));
            break;
        }
        match read_kv(data, pos) {
            Ok((kv, e)) => {
                let ghost prev = metadata@;
                metadata.push(kv);
                proof {
                    assert(kvs_model(metadata@) =~= kvs_model(prev) + seq![kv_model(metadata@.last())]);
                    match decode_kvs(data@, e as int, limit as int, (metadata_kv_count - k - 1) as nat) {
                        Ok(rest) => {
                            assert(kvs_model(prev) + (seq![kv_model(metadata@.last())] + rest)
                                =~= kvs_model(metadata@) + rest);
                        },
                        Err(_) => {},
                    }
                }
                pos = e;
                k = k + 1;
            },
            Err(ReadStop::Eof) => {
                assert(decode_kvs(data@, pos as int, limit as int, (metadata_kv_count - k) as nat)
                    == Ok::<Seq<KvModel>, GGUFError>(Seq::empty()));
                assert(kvs_model(metadata@) + Seq::<KvModel>::empty() =~= kvs_model(metadata@));
                break;
            },
            Err(ReadStop::Fail(x)) => {
                assert(decode_kvs(data@, pos as int, limit as int, (metadata_kv_count - k) as nat)
                    == Err::<Seq<KvModel>, GGUFError>(x));
                return Err(x);
            },
        }
    }
    let architecture = find_text(&metadata, &String::from_str("general.architecture"));
    let name = find_text(&metadata, &String::from_str("general.name"));
    let file_type = find_u32(&metadata, &String::from_str("general.file_type"));
    let ft_name = match file_type {
        Some(ft) => Some(String::from_str(file_type_name(ft))),
        None => None,
    };
    let arch = match &architecture {
        Some(a) => a.clone(),
        None => String::from_str("llama"),
    };
    let ctx_key = arch.clone().concat(".context_length");
    let context_length = find_u32(&metadata, &ctx_key);
    let embd_key = arch.concat(".embedding_length");
    let embedding_length = find_u32(&metadata, &embd_key);
    let chat_template = find_text(&metadata, &String::from_str("tokenizer.chat_template"));
    let ghost kvs = kvs_model(metadata@);
    assert(total == Ok::<Seq<KvModel>, GGUFError>(kvs));
    assert(arch@ == arch_or_default(kvs));
    assert(ctx_key@ == arch_or_default(kvs) + ".context_length"@);
    assert(opt_text(ft_name) == match file_type {
        Some(ft) => Some(quant_name(ft)),
        None => None::<Seq<char>>,
    });

    Ok(QuickScanResult {
        file_path,
        file_size,
        header,
        architecture,
        name,
        file_type,
        file_type_name: ft_name,
        context_length,
        embedding_length,
        chat_template,
        metadata,
    })
}

/// A decoding outcome on the first bytes of a file agrees with the outcome
/// on the whole file: the same, or cut off by the end of the bytes.
pub open spec fn agrees<T>(short: Result<T, ReadStop>, whole: Result<T, ReadStop>) -> bool {
    short == whole || short == Err::<T, ReadStop>(ReadStop::Eof)
}

proof fn lemma_same_bytes(b: Seq<u8>, n: int, p: int, k: int)
    requires
        0 <= n <= b.len(),
        avail(b.subrange(0, n), p, k),
        k >= 0,
    ensures
        avail(b, p, k),
        b.subrange(0, n).subrange(p, p + k) == b.subrange(p, p + k),
{
    assert(b.subrange(0, n).subrange(p, p + k) =~= b.subrange(p, p + k));
}

proof fn lemma_string_prefix(b: Seq<u8>, n: int, p: int)
    requires
        0 <= n <= b.len(),
    ensures
        agrees(decode_string(b.subrange(0, n), p), decode_string(b, p)),
{
    let c = b.subrange(0, n);
    if avail(c, p, 8) {
        lemma_same_bytes(b, n, p, 8);
        let len = u64_at(c, p);
        if len <= MAX_STRING_LEN && avail(c, p + 8, len as int) {
            lemma_same_bytes(b, n, p + 8, len as int);
        }
    }
}

proof fn lemma_value_prefix(b: Seq<u8>, n: int, p: int, t: GGUFValueType)
    requires
        0 <= n <= b.len(),
    ensures
        agrees(decode_value(b.subrange(0, n), p, t), decode_value(b, p, t)),
    decreases n - p, 0int,
{
    let c = b.subrange(0, n);
    if p < 0 || p > c.len() {
    } else {
        match t {
            GGUFValueType::String => {
                lemma_string_prefix(b, n, p);
            },
            GGUFValueType::Array => {
                if avail(c, p, 4) {
                    lemma_same_bytes(b, n, p, 4);
                    let raw = u32_at(c, p);
                    match type_of_tag(raw) {
                        Some(et) => if avail(c, p + 4, 8) {
                            lemma_same_bytes(b, n, p + 4, 8);
                            let cnt = u64_at(c, p + 4);
                            if cnt <= MAX_ARRAY_LEN {
                                lemma_elems_prefix(b, n, p + 12, et, cnt as nat);
                            }
                        },
                        None => {},
                    }
                }
            },
            _ => {
                if avail(c, p, fixed_size(t)) {
                    lemma_same_bytes(b, n, p, fixed_size(t));
                    if fixed_size(t) >= 2 {
                        assert(c.subrange(p, p + 2) =~= b.subrange(p, p + 2));
                    }
                    if fixed_size(t) >= 4 {
                        assert(c.subrange(p, p + 4) =~= b.subrange(p, p + 4));
                    }
                    if fixed_size(t) >= 8 {
                        assert(c.subrange(p, p + 8) =~= b.subrange(p, p + 8));
                    }
                    assert(c[p] == b[p]);
                }
            },
        }
    }
}

proof fn lemma_elems_prefix(b: Seq<u8>, n: int, p: int, t: GGUFValueType, k: nat)
    requires
        0 <= n <= b.len(),
    ensures
        agrees(decode_elems(b.subrange(0, n), p, t, k), decode_elems(b, p, t, k)),
    decreases n - p, 1int, k,
{
    let c = b.subrange(0, n);
    if k == 0 {
    } else if p < 0 || p > c.len() {
    } else {
        lemma_value_prefix(b, n, p, t);
        match decode_value(c, p, t) {
            Err(_) => {},
            Ok((v, e)) => {
                if e <= p || e > c.len() {
                } else {
                    lemma_elems_prefix(b, n, e, t, (k - 1) as nat);
                }
            },
        }
    }
}

proof fn lemma_kv_prefix(b: Seq<u8>, n: int, p: int)
    requires
        0 <= n <= b.len(),
    ensures
        agrees(decode_kv(b.subrange(0, n), p), decode_kv(b, p)),
{
    let c = b.subrange(0, n);
    lemma_string_prefix(b, n, p);
    match decode_string(c, p) {
        Ok((key, e)) => {
            if avail(c, e, 4) {
                lemma_same_bytes(b, n, e, 4);
                match type_of_tag(u32_at(c, e)) {
                    Some(t) => {
                        lemma_value_prefix(b, n, e + 4, t);
                    },
                    None => {},
                }
            }
        },
        Err(_) => {},
    }
}

proof fn lemma_kvs_prefix(b: Seq<u8>, n: int, p: int, limit: int, k: nat)
    requires
        0 <= n <= b.len(),
        decode_kvs(b, p, limit, k) is Ok,
    ensures
        decode_kvs(b.subrange(0, n), p, limit, k) is Ok,
        ({
            let short = decode_kvs(b.subrange(0, n), p, limit, k)->Ok_0;
            let whole = decode_kvs(b, p, limit, k)->Ok_0;
            short.len() <= whole.len() && short == whole.subrange(0, short.len() as int)
        }),
    decreases k,
{
    let c = b.subrange(0, n);
    if k == 0 || p >= limit {
    } else {
        lemma_kv_prefix(b, n, p);
        match decode_kv(b, p) {
            Ok((kv, e)) => {
                if decode_kv(c, p) == decode_kv(b, p) {
                    lemma_kvs_prefix(b, n, e, limit, (k - 1) as nat);
                    let short = decode_kvs(c, e, limit, (k - 1) as nat)->Ok_0;
                    let whole = decode_kvs(b, e, limit, (k - 1) as nat)->Ok_0;
                    assert((seq![kv] + whole).subrange(0, short.len() + 1 as int) =~= seq![kv] + short);
                }
            },
            Err(_) => {},
        }
    }
}

/// A file cut short anywhere after its fixed header still scans, and the
/// entries read are the first entries of the whole file: what quick scan
/// reads of a truncated file is part of what it reads of the whole.
pub proof fn truncated_scan_is_partial(b: Seq<u8>, n: int, limit: int)
    requires
        HEADER_LEN <= n <= b.len(),
        decode_header(b) is Ok,
        decode_kvs(b, HEADER_LEN as int, limit, decode_header(b)->Ok_0.metadata_kv_count as nat) is Ok,
    ensures
        decode_header(b.subrange(0, n)) == decode_header(b),
        ({
            let k = decode_header(b)->Ok_0.metadata_kv_count as nat;
            let short = decode_kvs(b.subrange(0, n), HEADER_LEN as int, limit, k);
            let whole = decode_kvs(b, HEADER_LEN as int, limit, k)->Ok_0;
            short is Ok && short->Ok_0.len() <= whole.len() && short->Ok_0 == whole.subrange(
                0,
                short->Ok_0.len() as int,
            )
        }),
{
    let c = b.subrange(0, n);
    assert(c.subrange(0, 4) =~= b.subrange(0, 4));
    assert(c.subrange(4, 8) =~= b.subrange(4, 8));
    assert(c.subrange(8, 16) =~= b.subrange(8, 16));
    assert(c.subrange(16, 24) =~= b.subrange(16, 24));
    lemma_kvs_prefix(b, n, HEADER_LEN as int, limit, decode_header(b)->Ok_0.metadata_kv_count as nat);
}

} // verus!
