//! Cache type tags, cache keys and their canonical string form.
//!
//! A cache key is a pair of a type tag and a raw key string. Its canonical
//! form is the decimal ASCII of the tag's wire code, one NUL byte, then the
//! raw key; the NUL byte is a hard separator and must not occur in a raw key.

use vstd::prelude::*;

verus! {

/// Why a cache operation was refused.
#[derive(Debug, Clone, Copy, PartialEq, Eq, Structural)]
pub enum CacheError {
    /// The wire tag is outside the closed set of known type codes.
    UnknownCacheType,
    /// A canonical key string misses the NUL separator or has a
    /// non-numeric type prefix.
    MalformedKey,
    /// Value bytes cannot be parsed as the structure their declared
    /// type implies.
    DecodeError,
}

/// The closed set of payload kinds that share the cache's key space.
#[derive(Debug, Clone, Copy, PartialEq, Eq, Structural, Hash)]
pub enum CacheType {
    String,
    StringMap,
    UserSession,
    ApiTokenSession,
}

impl CacheType {
    /// The wire code of each variant.
    pub open spec fn type_code(self) -> u8 {
        match self {
            CacheType::String => 1,
            CacheType::StringMap => 2,
            CacheType::UserSession => 3,
            CacheType::ApiTokenSession => 4,
        }
    }

    /// The variant a wire code stands for, if any.
    pub open spec fn spec_from_code(v: u8) -> Option<CacheType> {
        match v {
            1u8 => Some(CacheType::String),
            2u8 => Some(CacheType::StringMap),
            3u8 => Some(CacheType::UserSession),
            4u8 => Some(CacheType::ApiTokenSession),
            _ => None,
        }
    }

    /// Encoding a variant to its wire code.
    pub fn get_type_data(&self) -> (r: u8)
        ensures
            r == self.type_code(),
    {
        match self {
            CacheType::String => 1,
            CacheType::StringMap => 2,
            CacheType::UserSession => 3,
            CacheType::ApiTokenSession => 4,
        }
    }

    /// Decoding a wire code; total for codes 1 through 4, refused otherwise.
    pub fn from_data(v: u8) -> (r: Result<CacheType, CacheError>)
        ensures
            match r {
                Ok(t) => CacheType::spec_from_code(v) == Some(t),
                Err(e) => CacheType::spec_from_code(v) is None && e == CacheError::UnknownCacheType,
            },
    {
        match v {
            1 => Ok(CacheType::String),
            2 => Ok(CacheType::StringMap),
            3 => Ok(CacheType::UserSession),
            4 => Ok(CacheType::ApiTokenSession),
            _ => Err(CacheError::UnknownCacheType),
        }
    }
}

impl Default for CacheType {
    /// The default payload kind is an opaque string.
    fn default() -> (r: Self)
        ensures
            r == CacheType::String,
    {
        CacheType::String
    }
}

/// Wire codes and variants are in exact correspondence.
pub proof fn lemma_type_code_round_trip(t: CacheType)
    ensures
        CacheType::spec_from_code(t.type_code()) == Some(t),
{
}

/// The position of the first NUL byte, negative when there is none.
pub open spec fn spec_first_zero(b: Seq<u8>) -> int
    decreases b.len(),
{
    if b.len() == 0 {
        -1
    } else if b[0] == 0 {
        0
    } else {
        let r = spec_first_zero(b.drop_first());
        if r < 0 {
            -1
        } else {
            1 + r
        }
    }
}

/// The prefix with one leading ASCII plus sign removed, if present.
pub open spec fn spec_strip_plus(b: Seq<u8>) -> Seq<u8> {
    if b.len() > 0 && b[0] == 43 {
        b.drop_first()
    } else {
        b
    }
}

/// A non-empty run of ASCII decimal digits.
pub open spec fn spec_all_digits(b: Seq<u8>) -> bool {
    b.len() > 0 && forall|i: int| 0 <= i < b.len() ==> 48 <= #[trigger] b[i] <= 57
}

/// The numeric value of a run of decimal digits.
pub open spec fn spec_dec_value(b: Seq<u8>) -> int
    decreases b.len(),
{
    if b.len() == 0 {
        0
    } else {
        spec_dec_value(b.drop_last()) * 10 + (b.last() - 48)
    }
}

/// A digit run's value is never negative.
proof fn lemma_dec_value_nonneg(b: Seq<u8>)
    requires
        forall|i: int| 0 <= i < b.len() ==> 48 <= #[trigger] b[i] <= 57,
    ensures
        spec_dec_value(b) >= 0,
    decreases b.len(),
{
    if b.len() != 0 {
        assert(forall|i: int|
            0 <= i < b.drop_last().len() ==> 48 <= #[trigger] b.drop_last()[i] <= 57);
        lemma_dec_value_nonneg(b.drop_last());
    }
}

/// Reading one more digit multiplies by ten and adds it.
proof fn lemma_dec_value_step(b: Seq<u8>, i: int)
    requires
        0 <= i < b.len(),
    ensures
        spec_dec_value(b.take(i + 1)) == spec_dec_value(b.take(i)) * 10 + (b[i] - 48),
{
    assert(b.take(i + 1).drop_last() =~= b.take(i));
    assert(b.take(i + 1).last() == b[i]);
}

/// A digit run's value only grows as digits are appended.
proof fn lemma_dec_value_prefix(b: Seq<u8>, i: int)
    requires
        0 <= i <= b.len(),
        forall|k: int| 0 <= k < b.len() ==> 48 <= #[trigger] b[k] <= 57,
    ensures
        spec_dec_value(b.take(i)) <= spec_dec_value(b),
    decreases b.len() - i,
{
    if i == b.len() {
        assert(b.take(i) =~= b);
    } else {
        lemma_dec_value_step(b, i);
        assert(forall|k: int| 0 <= k < b.take(i).len() ==> 48 <= #[trigger] b.take(i)[k] <= 57);
        lemma_dec_value_nonneg(b.take(i));
        lemma_dec_value_prefix(b, i + 1);
    }
}

/// What parsing a canonical key byte string means: split at the first NUL;
/// the prefix, less one optional plus sign, must be decimal for a value up
/// to 255 that names a known type code; the remainder must be UTF-8 and is
/// the raw key.
pub open spec fn spec_parse_key(b: Seq<u8>) -> Result<(CacheType, Seq<char>), CacheError> {
    let z = spec_first_zero(b);
    if z < 0 {
        Err(CacheError::MalformedKey)
    } else {
        let digits = spec_strip_plus(b.take(z));
        if !spec_all_digits(digits) {
            Err(CacheError::MalformedKey)
        } else if spec_dec_value(digits) > 255 {
            Err(CacheError::MalformedKey)
        } else {
            let rest = b.skip(z + 1);
            match CacheType::spec_from_code(spec_dec_value(digits) as u8) {
                None => Err(CacheError::UnknownCacheType),
                Some(t) => if vstd::utf8::valid_utf8(rest) {
                    Ok((t, vstd::utf8::decode_utf8(rest)))
                } else {
                    Err(CacheError::MalformedKey)
                },
            }
        }
    }
}

/// A NUL at a position with none before it is the first one.
proof fn lemma_first_zero_at(b: Seq<u8>, z: int)
    requires
        0 <= z < b.len(),
        b[z] == 0,
        forall|k: int| 0 <= k < z ==> #[trigger] b[k] != 0,
    ensures
        spec_first_zero(b) == z,
    decreases z,
{
    if z > 0 {
        assert(b.drop_first()[z - 1] == 0);
        assert(forall|k: int| 0 <= k < z - 1 ==> #[trigger] b.drop_first()[k] != 0);
        lemma_first_zero_at(b.drop_first(), z - 1);
    }
}

/// Without a NUL byte there is no first one.
proof fn lemma_first_zero_none(b: Seq<u8>)
    requires
        forall|k: int| 0 <= k < b.len() ==> #[trigger] b[k] != 0,
    ensures
        spec_first_zero(b) < 0,
    decreases b.len(),
{
    if b.len() != 0 {
        assert(forall|k: int| 0 <= k < b.drop_first().len() ==> #[trigger] b.drop_first()[k] != 0);
        lemma_first_zero_none(b.drop_first());
    }
}

/// The type-tagged key of one cache entry.
#[derive(Debug, Eq, Hash)]
pub struct CacheKey {
    pub cache_type: CacheType,
    pub key: String,
}

impl PartialEq for CacheKey {
    fn eq(&self, other: &Self) -> (r: bool) {
        self.cache_type == other.cache_type && self.key == other.key
    }
}

impl vstd::std_specs::cmp::PartialEqSpecImpl for CacheKey {
    open spec fn obeys_eq_spec() -> bool {
        true
    }

    open spec fn eq_spec(&self, other: &Self) -> bool {
        self.cache_type == other.cache_type && self.key@ == other.key@
    }
}

impl Default for CacheKey {
    /// An empty key of the default type.
    fn default() -> (r: Self)
        ensures
            r.cache_type == CacheType::String,
            r.key@.len() == 0,
    {
        CacheKey { cache_type: CacheType::String, key: String::new() }
    }
}

/// The decimal digit that spells a variant's wire code.
pub open spec fn spec_code_char(t: CacheType) -> char {
    match t {
        CacheType::String => '1',
        CacheType::StringMap => '2',
        CacheType::UserSession => '3',
        CacheType::ApiTokenSession => '4',
    }
}

/// The canonical character form of a key: the code digit, one NUL, the raw
/// key.
pub open spec fn spec_key_chars(t: CacheType, key: Seq<char>) -> Seq<char> {
    seq![spec_code_char(t)] + seq!['\u{0}'] + key
}

impl CacheKey {
    pub fn new(cache_type: CacheType, key: String) -> (r: Self)
        ensures
            r.cache_type == cache_type,
            r.key == key,
    {
        CacheKey { cache_type, key }
    }

    /// The canonical string form: decimal code, NUL separator, raw key.
    pub fn to_key_string(&self) -> (r: String)
        ensures
            r@ == spec_key_chars(self.cache_type, self.key@),
    {
        let mut s = String::new();
        match self.cache_type {
            CacheType::String => s.append("1"),
            CacheType::StringMap => s.append("2"),
            CacheType::UserSession => s.append("3"),
            CacheType::ApiTokenSession => s.append("4"),
        }
        s.append("\u{0}");
        s.append(self.key.as_str());
        proof {
            reveal_strlit("1");
            reveal_strlit("2");
            reveal_strlit("3");
            reveal_strlit("4");
            reveal_strlit("\u{0}");
            assert(s@ =~= spec_key_chars(self.cache_type, self.key@));
        }
        s
    }

    /// Parses a canonical key from its raw bytes, exactly as
    /// `spec_parse_key` says.
    pub fn from_db_key(db_key: Vec<u8>) -> (r: Result<Self, CacheError>)
        ensures
            match r {
                Ok(k) => spec_parse_key(db_key@) == Ok::<_, CacheError>((k.cache_type, k.key@)),
                Err(e) => spec_parse_key(db_key@) == Err::<(CacheType, Seq<char>), _>(e),
            },
    {
        let mut z: usize = 0;
        let mut found = false;
        while z < db_key.len() && !found
            invariant
                z <= db_key@.len(),
                forall|k: int| 0 <= k < z ==> #[trigger] db_key@[k] != 0,
                found ==> z < db_key@.len() && db_key@[z as int] == 0,
            decreases db_key@.len() - z + (if found {
                0int
            } else {
                1int
            }),
        {
            if db_key[z] == 0 {
                found = true;
            } else {
                z += 1;
            }
        }
        if !found {
            proof {
                lemma_first_zero_none(db_key@);
            }
            return Err(CacheError::MalformedKey);
        }
        proof {
            lemma_first_zero_at(db_key@, z as int);
        }
        let ghost prefix = db_key@.take(z as int);
        let dstart: usize = if z > 0 && db_key[0] == 43 {
            1
        } else {
            0
        };
        let ghost digits = spec_strip_plus(prefix);
        proof {
            assert(digits =~= db_key@.subrange(dstart as int, z as int));
        }
        if dstart == z {
            assert(!spec_all_digits(digits));
            return Err(CacheError::MalformedKey);
        }
        let mut value: u32 = 0;
        let mut j: usize = dstart;
        while j < z
            invariant
                dstart <= j <= z <= db_key@.len(),
                z < db_key@.len(),
                dstart < z,
                spec_first_zero(db_key@) == z as int,
                digits == spec_strip_plus(db_key@.take(z as int)),
                digits == db_key@.subrange(dstart as int, z as int),
                forall|k: int| dstart <= k < j ==> 48 <= #[trigger] db_key@[k] <= 57,
                value == spec_dec_value(digits.take(j - dstart)),
                value <= 255,
            decreases z - j,
        {
            let d = db_key[j];
            if d < 48 || d > 57 {
                assert(digits[j - dstart] == d);
                assert(!spec_all_digits(digits));
                return Err(CacheError::MalformedKey);
            }
            proof {
                lemma_dec_value_step(digits, j - dstart);
            }
            let next: u32 = value * 10 + ((d - 48) as u32);
            if next > 255 {
                proof {
                    if spec_all_digits(digits) {
                        lemma_dec_value_prefix(digits, j - dstart + 1);
                    }
                }
                return Err(CacheError::MalformedKey);
            }
            value = next;
            j += 1;
        }
        proof {
            assert(digits.take(z - dstart) =~= digits);
            assert(spec_all_digits(digits));
        }
        let code = value as u8;
        let rest_slice = vstd::slice::slice_subrange(db_key.as_slice(), z + 1, db_key.len());
        let rest = vstd::slice::slice_to_vec(rest_slice);
        proof {
            assert(rest@ =~= db_key@.skip(z as int + 1));
        }
        match CacheType::from_data(code) {
            Err(e) => Err(e),
            Ok(cache_type) => {
                match crate::wire::utf8_to_string(rest) {
                    None => Err(CacheError::MalformedKey),
                    Some(key) => Ok(CacheKey { cache_type, key }),
                }
            },
        }
    }

    /// Builds a key from raw UTF-8 bytes and a wire code.
    pub fn from_bytes(key: Vec<u8>, t: u8) -> (r: Result<Self, CacheError>)
        ensures
            match r {
                Ok(k) => vstd::utf8::valid_utf8(key@) && k.key@ == vstd::utf8::decode_utf8(key@)
                    && CacheType::spec_from_code(t) == Some(k.cache_type),
                Err(e) => {
                    ||| (!vstd::utf8::valid_utf8(key@) && e == CacheError::MalformedKey)
                    ||| (vstd::utf8::valid_utf8(key@) && CacheType::spec_from_code(t) is None && e
                        == CacheError::UnknownCacheType)
                },
            },
    {
        match crate::wire::utf8_to_string(key) {
            None => Err(CacheError::MalformedKey),
            Some(s) => Self::from_string(s, t),
        }
    }

    /// Builds a key from a raw string and a wire code.
    pub fn from_string(key: String, t: u8) -> (r: Result<Self, CacheError>)
        ensures
            match r {
                Ok(k) => k.key == key && CacheType::spec_from_code(t) == Some(k.cache_type),
                Err(e) => CacheType::spec_from_code(t) is None && e
                    == CacheError::UnknownCacheType,
            },
    {
        match CacheType::from_data(t) {
            Ok(cache_type) => Ok(CacheKey { cache_type, key }),
            Err(e) => Err(e),
        }
    }
}

/// Parsing the UTF-8 bytes of a key's canonical form gives the type and the
/// raw key back, for every key.
pub proof fn lemma_key_round_trip(t: CacheType, key: Seq<char>)
    ensures
        spec_parse_key(vstd::utf8::encode_utf8(spec_key_chars(t, key))) == Ok::<_, CacheError>(
            (t, key),
        ),
{
    let c = spec_code_char(t);
    let chars = spec_key_chars(t, key);
    let cb: u8 = (48 + t.type_code()) as u8;
    assert(c as u32 == 48 + t.type_code());
    assert(vstd::utf8::encode_scalar(c as u32) =~= seq![cb]) by {
        assert(((48 + t.type_code()) as u32 & 0x7F) as u8 == (48 + t.type_code()) as u8) by {
            assert(t.type_code() <= 4);
            assert forall|v: u32| 48 <= v <= 57 implies (v & 0x7F) as u8 == v as u8 by {
                assert(forall|v: u32| 48 <= v <= 57 ==> #[trigger] (v & 0x7F) == v) by (bit_vector);
            }
        }
    }
    assert(vstd::utf8::encode_scalar('\u{0}' as u32) =~= seq![0u8]) by {
        assert((0u32 & 0x7F) as u8 == 0u8) by (bit_vector);
    }
    let enc = vstd::utf8::encode_utf8(chars);
    let keyenc = vstd::utf8::encode_utf8(key);
    assert(chars[0] == c);
    let d1 = chars.drop_first();
    assert(d1 =~= seq!['\u{0}'] + key);
    assert(d1[0] == '\u{0}');
    assert(d1.drop_first() =~= key);
    assert(enc == vstd::utf8::encode_scalar(c as u32) + vstd::utf8::encode_utf8(d1));
    assert(vstd::utf8::encode_utf8(d1) == vstd::utf8::encode_scalar('\u{0}' as u32)
        + vstd::utf8::encode_utf8(d1.drop_first()));
    assert(vstd::utf8::encode_utf8(d1.drop_first()) == keyenc);
    assert(enc =~= seq![cb] + (seq![0u8] + keyenc));
    assert(enc[0] == cb && cb != 0 && cb != 43);
    assert(enc[1] == 0);
    assert(forall|k: int| 0 <= k < 1 ==> #[trigger] enc[k] != 0);
    lemma_first_zero_at(enc, 1);
    let digits = spec_strip_plus(enc.take(1));
    assert(digits =~= seq![cb]);
    assert(spec_all_digits(digits));
    assert(seq![cb].drop_last() =~= Seq::<u8>::empty());
    assert(spec_dec_value(Seq::<u8>::empty()) == 0);
    assert(spec_dec_value(seq![cb]) == spec_dec_value(seq![cb].drop_last()) * 10 + (cb - 48));
    assert(spec_dec_value(digits) == t.type_code());
    assert(CacheType::spec_from_code(spec_dec_value(digits) as u8) == Some(t));
    let rest = enc.skip(2);
    assert(rest =~= keyenc);
    vstd::utf8::encode_utf8_valid_utf8(key);
    vstd::utf8::encode_utf8_decode_utf8(key);
}

/// Bytes without any NUL never parse as a key.
pub proof fn lemma_key_no_nul_fails(b: Seq<u8>)
    requires
        forall|k: int| 0 <= k < b.len() ==> #[trigger] b[k] != 0,
    ensures
        spec_parse_key(b) == Err::<(CacheType, Seq<char>), _>(CacheError::MalformedKey),
{
    lemma_first_zero_none(b);
}

} // verus!
