//! The wire envelope of one replicated cache entry.
//!
//! `CacheItemDo` carries a type tag, the payload bytes and an advisory
//! timeout in a compact protocol-buffer shaped message: each present field
//! is a one-byte key followed by a varint or length-prefixed bytes, and a
//! field holding its default value is left out. The layout is binary-stable:
//! it is the persisted and replicated format.

use vstd::prelude::*;

use crate::cache::CacheError;
use crate::cache::CacheType;
use crate::value::CacheValue;
use crate::value::CacheValueModel;
use crate::value::spec_model_type;
use crate::value::spec_parse_value;
use crate::value::spec_value_bytes;
use crate::value::spec_value_wf;
use crate::value::lemma_value_round_trip;
use crate::wire::append_bytes;
use crate::wire::lemma_lp_round_trip;
use crate::wire::lemma_varint_round_trip;
use crate::wire::read_lp;
use crate::wire::read_varint;
use crate::wire::spec_lp_bytes;
use crate::wire::spec_parse_lp;
use crate::wire::spec_parse_varint;
use crate::wire::spec_varint_bytes;
use crate::wire::write_varint;

verus! {

/// The envelope: type tag, payload bytes, advisory timeout in seconds.
#[derive(Debug)]
pub struct CacheItemDo {
    /// The payload's wire code; only 1 through 4 name a known type.
    pub cache_type: u32,
    /// The payload's byte encoding.
    pub data: Vec<u8>,
    /// Advisory time-to-live attached at write time, not enforced here.
    pub timeout: i32,
}

/// The image of an envelope.
pub struct CacheItemModel {
    pub cache_type: u32,
    pub data: Seq<u8>,
    pub timeout: i32,
}

impl View for CacheItemDo {
    type V = CacheItemModel;

    open spec fn view(&self) -> CacheItemModel {
        CacheItemModel { cache_type: self.cache_type, data: self.data@, timeout: self.timeout }
    }
}

/// The timeout as the unsigned 64-bit word a varint carries: two's
/// complement, sign-extended.
pub open spec fn spec_timeout_val(t: i32) -> u64 {
    if t >= 0 {
        t as u64
    } else {
        (t + 0x1_0000_0000_0000_0000) as u64
    }
}

/// The envelope's byte form: fields in tag order, each a one-byte key and a
/// varint or length-prefixed bytes; default-valued fields are left out.
pub open spec fn spec_envelope_bytes(m: CacheItemModel) -> Seq<u8> {
    (if m.cache_type != 0 {
        seq![8u8] + spec_varint_bytes(m.cache_type as u64)
    } else {
        Seq::empty()
    }) + (if m.data.len() != 0 {
        seq![0x12u8] + spec_lp_bytes(m.data)
    } else {
        Seq::empty()
    }) + (if m.timeout != 0 {
        seq![0x18u8] + spec_varint_bytes(spec_timeout_val(m.timeout))
    } else {
        Seq::empty()
    })
}

/// The optional tag field at the front; absent means the default zero.
pub open spec fn spec_parse_field_ct(s: Seq<u8>) -> Option<(u32, int)> {
    if s.len() == 0 || s[0] != 8 {
        Some((0, 0))
    } else {
        match spec_parse_varint(s.skip(1)) {
            None => None,
            Some((v, n)) => if v <= u32::MAX {
                Some((v as u32, 1 + n))
            } else {
                None
            },
        }
    }
}

/// The optional data field at the front; absent means empty bytes.
pub open spec fn spec_parse_field_data(s: Seq<u8>) -> Option<(Seq<u8>, int)> {
    if s.len() == 0 || s[0] != 0x12 {
        Some((Seq::empty(), 0))
    } else {
        match spec_parse_lp(s.skip(1)) {
            None => None,
            Some((b, n)) => Some((b, 1 + n)),
        }
    }
}

/// The optional timeout field at the front; absent means zero. The varint
/// word is read back as a two's-complement 32-bit value.
pub open spec fn spec_parse_field_timeout(s: Seq<u8>) -> Option<(i32, int)> {
    if s.len() == 0 || s[0] != 0x18 {
        Some((0, 0))
    } else {
        match spec_parse_varint(s.skip(1)) {
            None => None,
            Some((v, n)) => if v <= i32::MAX as u64 {
                Some((v as i32, 1 + n))
            } else if v >= 0xffff_ffff_8000_0000u64 {
                Some(((v - 0x1_0000_0000_0000_0000) as i32, 1 + n))
            } else {
                None
            },
        }
    }
}

/// The whole envelope: the three optional fields in tag order, consuming
/// every byte.
pub open spec fn spec_parse_envelope(s: Seq<u8>) -> Option<CacheItemModel> {
    match spec_parse_field_ct(s) {
        None => None,
        Some((ct, n1)) => match spec_parse_field_data(s.skip(n1)) {
            None => None,
            Some((d, n2)) => match spec_parse_field_timeout(s.skip(n1 + n2)) {
                None => None,
                Some((t, n3)) => if n1 + n2 + n3 == s.len() {
                    Some(CacheItemModel { cache_type: ct, data: d, timeout: t })
                } else {
                    None
                },
            },
        },
    }
}

impl CacheItemDo {
    /// Encodes the envelope into its binary-stable byte form.
    pub fn to_bytes(&self) -> (r: Vec<u8>)
        ensures
            r@ == spec_envelope_bytes(self@),
    {
        let mut out: Vec<u8> = Vec::new();
        if self.cache_type != 0 {
            out.push(8);
            write_varint(self.cache_type as u64, &mut out);
        }
        if self.data.len() != 0 {
            out.push(0x12);
            write_varint(self.data.len() as u64, &mut out);
            append_bytes(&mut out, self.data.as_slice());
        }
        if self.timeout != 0 {
            out.push(0x18);
            let tv: u64 = if self.timeout >= 0 {
                self.timeout as u64
            } else {
                let neg: u64 = (-(self.timeout as i64)) as u64;
                u64::MAX - neg + 1
            };
            assert(tv == spec_timeout_val(self.timeout));
            write_varint(tv, &mut out);
        }
        proof {
            assert(out@ =~= spec_envelope_bytes(self@));
        }
        out
    }

    /// Decodes an envelope, exactly as `spec_parse_envelope` says; stray
    /// bytes or a malformed field are refused.
    pub fn from_bytes(v: &[u8]) -> (r: Result<CacheItemDo, CacheError>)
        ensures
            match r {
                Ok(item) => spec_parse_envelope(v@) == Some(item@),
                Err(e) => spec_parse_envelope(v@) is None && e == CacheError::DecodeError,
            },
    {
        let bytes = vstd::slice::slice_to_vec(v);
        let n = bytes.len();
        let mut cache_type: u32 = 0;
        let mut pos: usize = 0;
        if n > 0 && bytes[0] == 8 {
            proof {
                assert(bytes@.skip(0) =~= bytes@);
                assert(bytes@.skip(1) =~= bytes@.skip(0).skip(1));
            }
            match read_varint(&bytes, 1) {
                None => {
                    return Err(CacheError::DecodeError);
                },
                Some((w, p)) => {
                    if w > 0xffff_ffffu64 {
                        return Err(CacheError::DecodeError);
                    }
                    cache_type = w as u32;
                    pos = p;
                },
            }
        }
        proof {
            assert(spec_parse_field_ct(bytes@) == Some((cache_type, pos as int)));
        }
        let ghost n1: int = pos as int;
        let mut data: Vec<u8> = Vec::new();
        if pos < n && bytes[pos] == 0x12 {
            proof {
                assert(bytes@.skip(n1).skip(1) =~= bytes@.skip(n1 + 1));
                assert(bytes@.skip(n1 + 1) =~= bytes@.skip(pos as int + 1));
            }
            match read_lp(&bytes, pos + 1) {
                None => {
                    proof {
                        assert(spec_parse_field_data(bytes@.skip(n1)) is None);
                    }
                    return Err(CacheError::DecodeError);
                },
                Some((d, p)) => {
                    data = d;
                    pos = p;
                },
            }
        }
        proof {
            assert(bytes@.skip(n1)[0] == bytes@[n1] || bytes@.skip(n1).len() == 0);
            assert(spec_parse_field_data(bytes@.skip(n1)) == Some((data@, pos - n1)));
        }
        let ghost n2: int = pos - n1;
        let mut timeout: i32 = 0;
        if pos < n && bytes[pos] == 0x18 {
            proof {
                assert(bytes@.skip(n1 + n2).skip(1) =~= bytes@.skip(pos as int + 1));
            }
            match read_varint(&bytes, pos + 1) {
                None => {
                    proof {
                        assert(spec_parse_field_timeout(bytes@.skip(n1 + n2)) is None);
                    }
                    return Err(CacheError::DecodeError);
                },
                Some((w, p)) => {
                    if w <= 0x7fff_ffffu64 {
                        timeout = w as i32;
                        pos = p;
                    } else if w >= 0xffff_ffff_8000_0000u64 {
                        let down: u64 = u64::MAX - w;
                        timeout = -((down + 1) as i64) as i32;
                        proof {
                            assert(timeout == (w - 0x1_0000_0000_0000_0000) as i32);
                        }
                        pos = p;
                    } else {
                        proof {
                            assert(spec_parse_field_timeout(bytes@.skip(n1 + n2)) is None);
                        }
                        return Err(CacheError::DecodeError);
                    }
                },
            }
        }
        proof {
            assert(spec_parse_field_timeout(bytes@.skip(n1 + n2)) == Some((timeout, pos - n1 - n2)));
        }
        if pos == n {
            Ok(CacheItemDo { cache_type, data, timeout })
        } else {
            Err(CacheError::DecodeError)
        }
    }

    /// Wraps a payload: the tag always comes from the payload itself, so tag
    /// and bytes cannot disagree; the timeout starts at zero.
    pub fn from_value(value: &CacheValue) -> (r: CacheItemDo)
        ensures
            r@.cache_type == spec_model_type(value@).type_code() as u32,
            r@.data == spec_value_bytes(value@),
            r@.timeout == 0,
    {
        CacheItemDo {
            data: value.to_bytes(),
            timeout: 0,
            cache_type: value.get_cache_type().get_type_data() as u32,
        }
    }
}

/// What unwrapping an envelope means: an unknown tag is refused, a known one
/// has its data decoded under it.
pub open spec fn spec_value_of_item(m: CacheItemModel) -> Result<CacheValueModel, CacheError> {
    if m.cache_type > 255 {
        Err(CacheError::UnknownCacheType)
    } else {
        match CacheType::spec_from_code(m.cache_type as u8) {
            None => Err(CacheError::UnknownCacheType),
            Some(t) => spec_parse_value(m.data, t),
        }
    }
}

impl CacheValue {
    /// Unwraps an envelope back into a payload, exactly as
    /// `spec_value_of_item` says.
    pub fn try_from_item(item: CacheItemDo) -> (r: Result<CacheValue, CacheError>)
        ensures
            match r {
                Ok(v) => spec_value_of_item(item@) == Ok::<_, CacheError>(v@),
                Err(e) => spec_value_of_item(item@) == Err::<CacheValueModel, _>(e),
            },
    {
        if item.cache_type > 255 {
            return Err(CacheError::UnknownCacheType);
        }
        match CacheType::from_data(item.cache_type as u8) {
            Err(e) => Err(e),
            Ok(t) => CacheValue::from_bytes(item.data, t),
        }
    }
}

/// Round trip for the envelope: decoding an encoded envelope gives it back.
pub proof fn lemma_envelope_round_trip(m: CacheItemModel)
    requires
        m.data.len() <= u64::MAX,
    ensures
        spec_parse_envelope(spec_envelope_bytes(m)) == Some(m),
{
    let seg1: Seq<u8> = if m.cache_type != 0 {
        seq![8u8] + spec_varint_bytes(m.cache_type as u64)
    } else {
        Seq::empty()
    };
    let seg2: Seq<u8> = if m.data.len() != 0 {
        seq![0x12u8] + spec_lp_bytes(m.data)
    } else {
        Seq::empty()
    };
    let seg3: Seq<u8> = if m.timeout != 0 {
        seq![0x18u8] + spec_varint_bytes(spec_timeout_val(m.timeout))
    } else {
        Seq::empty()
    };
    let s = spec_envelope_bytes(m);
    assert(s =~= seg1 + (seg2 + seg3));
    let n1: int = seg1.len() as int;
    if m.cache_type != 0 {
        assert(s[0] == 8);
        assert(s.skip(1) =~= spec_varint_bytes(m.cache_type as u64) + (seg2 + seg3));
        lemma_varint_round_trip(m.cache_type as u64, seg2 + seg3);
        assert(spec_parse_field_ct(s) == Some((m.cache_type, n1)));
    } else {
        if s.len() > 0 {
            assert(s[0] == seg2[0] || s[0] == seg3[0]);
            assert(s[0] != 8);
        }
        assert(spec_parse_field_ct(s) == Some((m.cache_type, n1)));
    }
    let s2 = s.skip(n1);
    assert(s2 =~= seg2 + seg3);
    let n2: int = seg2.len() as int;
    if m.data.len() != 0 {
        assert(s2[0] == 0x12);
        assert(s2.skip(1) =~= spec_lp_bytes(m.data) + seg3);
        lemma_lp_round_trip(m.data, seg3);
        assert(spec_parse_field_data(s2) == Some((m.data, n2)));
    } else {
        if s2.len() > 0 {
            assert(s2[0] == seg3[0]);
            assert(s2[0] != 0x12);
        }
        assert(m.data =~= Seq::<u8>::empty());
        assert(spec_parse_field_data(s2) == Some((m.data, n2)));
    }
    let s3 = s.skip(n1 + n2);
    assert(s3 =~= seg3);
    let n3: int = seg3.len() as int;
    if m.timeout != 0 {
        assert(s3[0] == 0x18);
        assert(s3.skip(1) =~= spec_varint_bytes(spec_timeout_val(m.timeout)) + Seq::<u8>::empty());
        assert(s3.skip(1) =~= spec_varint_bytes(spec_timeout_val(m.timeout)));
        lemma_varint_round_trip(spec_timeout_val(m.timeout), Seq::empty());
        assert(spec_varint_bytes(spec_timeout_val(m.timeout)) + Seq::<u8>::empty()
            =~= spec_varint_bytes(spec_timeout_val(m.timeout)));
        let w = spec_timeout_val(m.timeout);
        if m.timeout > 0 {
            assert(w <= i32::MAX as u64);
            assert(w as i32 == m.timeout);
        } else {
            assert(w >= 0xffff_ffff_8000_0000u64);
            assert((w - 0x1_0000_0000_0000_0000) as i32 == m.timeout);
        }
        assert(spec_parse_field_timeout(s3) == Some((m.timeout, n3)));
    } else {
        assert(s3.len() == 0);
        assert(spec_parse_field_timeout(s3) == Some((m.timeout, n3)));
    }
    assert(n1 + n2 + n3 == s.len());
}

/// Wrapping a payload and unwrapping the envelope gives the payload back,
/// so the recovered variant always carries the same type tag.
pub proof fn lemma_envelope_value_coherence(v: CacheValueModel)
    requires
        spec_value_wf(v),
    ensures
        spec_value_of_item(
            CacheItemModel {
                cache_type: spec_model_type(v).type_code() as u32,
                data: spec_value_bytes(v),
                timeout: 0,
            },
        ) == Ok::<_, CacheError>(v),
{
    lemma_value_round_trip(v);
}

} // verus!
