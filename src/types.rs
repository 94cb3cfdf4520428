use vstd::prelude::*;

verus! {

broadcast use {
    vstd::std_specs::vec::axiom_vec_decreases_to_view,
    vstd::seq::axiom_seq_index_decreases,
};

/// Magic word `GGUF`, read little-endian.
pub const GGUF_MAGIC: u32 = 0x4655_4747;

/// Highest format version this reader accepts.
pub const GGUF_VERSION_MAX: u32 = 3;

/// Tag of a metadata value.
#[derive(Debug, Clone, Copy, PartialEq, Eq, Structural)]
pub enum GGUFValueType {
    Uint8,
    Int8,
    Uint16,
    Int16,
    Uint32,
    Int32,
    Float32,
    Bool,
    String,
    Array,
    Uint64,
    Int64,
    Float64,
}

/// The value type that a raw tag denotes, if any.
pub open spec fn type_of_tag(v: u32) -> Option<GGUFValueType> {
    if v == 0 {
        Some(GGUFValueType::Uint8)
    } else if v == 1 {
        Some(GGUFValueType::Int8)
    } else if v == 2 {
        Some(GGUFValueType::Uint16)
    } else if v == 3 {
        Some(GGUFValueType::Int16)
    } else if v == 4 {
        Some(GGUFValueType::Uint32)
    } else if v == 5 {
        Some(GGUFValueType::Int32)
    } else if v == 6 {
        Some(GGUFValueType::Float32)
    } else if v == 7 {
        Some(GGUFValueType::Bool)
    } else if v == 8 {
        Some(GGUFValueType::String)
    } else if v == 9 {
        Some(GGUFValueType::Array)
    } else if v == 10 {
        Some(GGUFValueType::Uint64)
    } else if v == 11 {
        Some(GGUFValueType::Int64)
    } else if v == 12 {
        Some(GGUFValueType::Float64)
    } else {
        None
    }
}

impl GGUFValueType {
    /// Decode a raw tag.
    pub fn from_tag(v: u32) -> (r: Result<GGUFValueType, GGUFError>)
        ensures
            match type_of_tag(v) {
                Some(t) => r == Ok::<GGUFValueType, GGUFError>(t),
                None => r == Err::<GGUFValueType, GGUFError>(GGUFError::InvalidValueType(v)),
            },
    {
        match v {
            0 => Ok(GGUFValueType::Uint8),
            1 => Ok(GGUFValueType::Int8),
            2 => Ok(GGUFValueType::Uint16),
            3 => Ok(GGUFValueType::Int16),
            4 => Ok(GGUFValueType::Uint32),
            5 => Ok(GGUFValueType::Int32),
            6 => Ok(GGUFValueType::Float32),
            7 => Ok(GGUFValueType::Bool),
            8 => Ok(GGUFValueType::String),
            9 => Ok(GGUFValueType::Array),
            10 => Ok(GGUFValueType::Uint64),
            11 => Ok(GGUFValueType::Int64),
            12 => Ok(GGUFValueType::Float64),
            _ => Err(GGUFError::InvalidValueType(v)),
        }
    }
}

/// Fixed part of a file's header.
#[derive(Debug, Clone, Copy, PartialEq, Eq, Structural)]
pub struct GGUFHeader {
    pub version: u32,
    pub tensor_count: u64,
    pub metadata_kv_count: u64,
}

/// A decoded metadata value. Floating-point values are kept as their raw
/// IEEE-754 bit patterns; arrays keep their element type.
#[derive(Debug)]
pub enum GGUFValue {
    Uint8(u8),
    Int8(i8),
    Uint16(u16),
    Int16(i16),
    Uint32(u32),
    Int32(i32),
    Float32(u32),
    Bool(bool),
    String(String),
    Array(GGUFValueType, Vec<GGUFValue>),
    Uint64(u64),
    Int64(i64),
    Float64(u64),
}

/// Mathematical form of a metadata value.
pub enum ValueModel {
    Uint8(u8),
    Int8(i8),
    Uint16(u16),
    Int16(i16),
    Uint32(u32),
    Int32(i32),
    Float32(u32),
    Bool(bool),
    Str(Seq<char>),
    Array(GGUFValueType, Seq<ValueModel>),
    Uint64(u64),
    Int64(i64),
    Float64(u64),
}

/// Model of a value.
pub open spec fn model_of(v: GGUFValue) -> ValueModel
    decreases v, 1int,
{
    match v {
        GGUFValue::Uint8(x) => ValueModel::Uint8(x),
        GGUFValue::Int8(x) => ValueModel::Int8(x),
        GGUFValue::Uint16(x) => ValueModel::Uint16(x),
        GGUFValue::Int16(x) => ValueModel::Int16(x),
        GGUFValue::Uint32(x) => ValueModel::Uint32(x),
        GGUFValue::Int32(x) => ValueModel::Int32(x),
        GGUFValue::Float32(x) => ValueModel::Float32(x),
        GGUFValue::Bool(x) => ValueModel::Bool(x),
        GGUFValue::String(s) => ValueModel::Str(s@),
        GGUFValue::Array(t, items) => ValueModel::Array(t, models_of(items@)),
        GGUFValue::Uint64(x) => ValueModel::Uint64(x),
        GGUFValue::Int64(x) => ValueModel::Int64(x),
        GGUFValue::Float64(x) => ValueModel::Float64(x),
    }
}

/// Models of a sequence of values, element by element.
pub open spec fn models_of(s: Seq<GGUFValue>) -> Seq<ValueModel>
    decreases s, 0int,
{
    if s.len() == 0 {
        Seq::empty()
    } else {
        models_of(s.drop_last()).push(model_of(s.last()))
    }
}

pub proof fn lemma_models_of(s: Seq<GGUFValue>)
    ensures
        models_of(s) == s.map_values(|v: GGUFValue| model_of(v)),
    decreases s.len(),
{
    if s.len() > 0 {
        lemma_models_of(s.drop_last());
    }
    assert(models_of(s) =~= s.map_values(|v: GGUFValue| model_of(v)));
}

impl View for GGUFValue {
    type V = ValueModel;

    open spec fn view(&self) -> ValueModel {
        model_of(*self)
    }
}

/// An integer read of a value as `u32`: unsigned and signed 32-bit values
/// and 64-bit unsigned values, the latter two truncated.
pub open spec fn model_as_u32(v: ValueModel) -> Option<u32> {
    match v {
        ValueModel::Uint32(x) => Some(x),
        ValueModel::Int32(x) => Some(x as u32),
        ValueModel::Uint64(x) => Some(x as u32),
        _ => None,
    }
}

/// An integer read of a value as `u64`.
pub open spec fn model_as_u64(v: ValueModel) -> Option<u64> {
    match v {
        ValueModel::Uint64(x) => Some(x),
        ValueModel::Uint32(x) => Some(x as u64),
        ValueModel::Int64(x) => Some(x as u64),
        _ => None,
    }
}

impl GGUFValue {
    pub fn as_u32(&self) -> (r: Option<u32>)
        ensures
            r == model_as_u32(self@),
    {
        match self {
            GGUFValue::Uint32(v) => Some(*v),
            GGUFValue::Int32(v) => Some(*v as u32),
            GGUFValue::Uint64(v) => Some(*v as u32),
            _ => None,
        }
    }

    pub fn as_u64(&self) -> (r: Option<u64>)
        ensures
            r == model_as_u64(self@),
    {
        match self {
            GGUFValue::Uint64(v) => Some(*v),
            GGUFValue::Uint32(v) => Some(*v as u64),
            GGUFValue::Int64(v) => Some(*v as u64),
            _ => None,
        }
    }

    pub fn as_str(&self) -> (r: Option<&str>)
        ensures
            match self@ {
                ValueModel::Str(s) => r.is_some() && r.unwrap()@ == s,
                _ => r.is_none(),
            },
    {
        match self {
            GGUFValue::String(s) => Some(s.as_str()),
            _ => None,
        }
    }
}

/// One metadata entry: its dotted key, its tag and its value.
#[derive(Debug)]
pub struct GGUFMetadataKV {
    pub key: String,
    pub value_type: GGUFValueType,
    pub value: GGUFValue,
}

/// Why a file could not be read.
#[derive(Debug, Clone, PartialEq, Eq)]
pub enum GGUFError {
    /// The file could not be opened or read; the message says why.
    Io(String),
    InvalidMagic(u32),
    UnsupportedVersion(u32),
    InvalidValueType(u32),
    /// The file ends before its fixed header does.
    TruncatedHeader,
    /// A string or array declares more elements than the reader accepts.
    Oversize(u64),
}

/// Name of a quantisation type, by its `general.file_type` number.
pub open spec fn quant_name(ft: u32) -> Seq<char> {
    if ft == 0 { "F32"@ }
    else if ft == 1 { "F16"@ }
    else if ft == 2 { "Q4_0"@ }
    else if ft == 3 { "Q4_1"@ }
    else if ft == 7 { "Q8_0"@ }
    else if ft == 8 { "Q5_0"@ }
    else if ft == 9 { "Q5_1"@ }
    else if ft == 10 { "Q2_K"@ }
    else if ft == 11 { "Q3_K_S"@ }
    else if ft == 12 { "Q3_K_M"@ }
    else if ft == 13 { "Q3_K_L"@ }
    else if ft == 14 { "Q4_K_S"@ }
    else if ft == 15 { "Q4_K_M"@ }
    else if ft == 16 { "Q5_K_S"@ }
    else if ft == 17 { "Q5_K_M"@ }
    else if ft == 18 { "Q6_K"@ }
    else if ft == 19 { "IQ2_XXS"@ }
    else if ft == 20 { "IQ2_XS"@ }
    else if ft == 21 { "Q2_K_S"@ }
    else if ft == 22 { "IQ3_XS"@ }
    else if ft == 23 { "IQ3_XXS"@ }
    else if ft == 24 { "IQ1_S"@ }
    else if ft == 25 { "IQ4_NL"@ }
    else if ft == 26 { "IQ3_S"@ }
    else if ft == 27 { "IQ3_M"@ }
    else if ft == 28 { "IQ2_S"@ }
    else if ft == 29 { "IQ2_M"@ }
    else if ft == 30 { "IQ4_XS"@ }
    else if ft == 31 { "IQ1_M"@ }
    else if ft == 32 { "BF16"@ }
    else { "Unknown"@ }
}

/// Map a `general.file_type` value to a short quantisation name.
pub fn file_type_name(ft: u32) -> (r: &'static str)
    ensures
        r@ == quant_name(ft),
{
    match ft {
        0 => "F32",
        1 => "F16",
        2 => "Q4_0",
        3 => "Q4_1",
        7 => "Q8_0",
        8 => "Q5_0",
        9 => "Q5_1",
        10 => "Q2_K",
        11 => "Q3_K_S",
        12 => "Q3_K_M",
        13 => "Q3_K_L",
        14 => "Q4_K_S",
        15 => "Q4_K_M",
        16 => "Q5_K_S",
        17 => "Q5_K_M",
        18 => "Q6_K",
        19 => "IQ2_XXS",
        20 => "IQ2_XS",
        21 => "Q2_K_S",
        22 => "IQ3_XS",
        23 => "IQ3_XXS",
        24 => "IQ1_S",
        25 => "IQ4_NL",
        26 => "IQ3_S",
        27 => "IQ3_M",
        28 => "IQ2_S",
        29 => "IQ2_M",
        30 => "IQ4_XS",
        31 => "IQ1_M",
        32 => "BF16",
        _ => "Unknown",
    }
}

} // verus!
