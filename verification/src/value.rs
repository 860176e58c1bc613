//! Cache values: the closed family of payloads that share one replicated
//! key/value store, with a deterministic byte encoding per variant.
//!
//! An opaque string is its raw UTF-8 bytes with no framing; a string map and
//! the two session records are counted lists of length-prefixed strings.
//! Decoding is exact against a spec parser and fails on anything else.

use vstd::prelude::*;
use vstd::utf8::decode_utf8;
use vstd::utf8::encode_utf8;
use vstd::utf8::encode_utf8_decode_utf8;
use vstd::utf8::encode_utf8_valid_utf8;
use vstd::utf8::valid_utf8;

use crate::cache::CacheError;
use crate::cache::CacheType;
use crate::instance::pairs_view;
use crate::wire::lemma_pairs_list_round_trip;
use crate::wire::lemma_str_list_round_trip;
use crate::wire::lemma_str_round_trip;
use crate::wire::read_pairs_list;
use crate::wire::read_str;
use crate::wire::read_str_list;
use crate::wire::spec_pairs_list_bytes;
use crate::wire::spec_parse_pairs_list;
use crate::wire::spec_parse_str;
use crate::wire::spec_parse_str_list;
use crate::wire::spec_str_bytes;
use crate::wire::spec_str_list_bytes;
use crate::wire::utf8_to_string;
use crate::wire::write_pairs_list;
use crate::wire::write_str;
use crate::wire::write_str_list;
use vstd::string::StrSliceExecFns;

verus! {

/// A console user's session, stored under a bearer token.
#[derive(Debug)]
pub struct UserSession {
    pub username: String,
    pub nickname: String,
    pub roles: Vec<String>,
    pub extend_infos: Vec<(String, String)>,
}

/// The image of a user session.
pub struct UserSessionModel {
    pub username: Seq<char>,
    pub nickname: Seq<char>,
    pub roles: Seq<Seq<char>>,
    pub extend_infos: Seq<(Seq<char>, Seq<char>)>,
}

impl View for UserSession {
    type V = UserSessionModel;

    open spec fn view(&self) -> UserSessionModel {
        UserSessionModel {
            username: self.username@,
            nickname: self.nickname@,
            roles: self.roles.deep_view(),
            extend_infos: pairs_view(self.extend_infos@),
        }
    }
}

/// An open-api token session.
#[derive(Debug)]
pub struct TokenSession {
    pub username: String,
    pub roles: Vec<String>,
}

/// The image of a token session.
pub struct TokenSessionModel {
    pub username: Seq<char>,
    pub roles: Seq<Seq<char>>,
}

impl View for TokenSession {
    type V = TokenSessionModel;

    open spec fn view(&self) -> TokenSessionModel {
        TokenSessionModel { username: self.username@, roles: self.roles.deep_view() }
    }
}

/// One cache payload.
#[derive(Debug)]
pub enum CacheValue {
    String(String),
    StringMap(Vec<(String, String)>),
    UserSession(UserSession),
    ApiTokenSession(TokenSession),
}

/// The image of a cache payload.
pub enum CacheValueModel {
    String(Seq<char>),
    StringMap(Seq<(Seq<char>, Seq<char>)>),
    UserSession(UserSessionModel),
    ApiTokenSession(TokenSessionModel),
}

impl View for CacheValue {
    type V = CacheValueModel;

    open spec fn view(&self) -> CacheValueModel {
        match self {
            CacheValue::String(s) => CacheValueModel::String(s@),
            CacheValue::StringMap(m) => CacheValueModel::StringMap(pairs_view(m@)),
            CacheValue::UserSession(u) => CacheValueModel::UserSession(u@),
            CacheValue::ApiTokenSession(t) => CacheValueModel::ApiTokenSession(t@),
        }
    }
}

/// The type tag a payload carries.
pub open spec fn spec_model_type(m: CacheValueModel) -> CacheType {
    match m {
        CacheValueModel::String(_) => CacheType::String,
        CacheValueModel::StringMap(_) => CacheType::StringMap,
        CacheValueModel::UserSession(_) => CacheType::UserSession,
        CacheValueModel::ApiTokenSession(_) => CacheType::ApiTokenSession,
    }
}

/// The byte encoding of a payload: raw UTF-8 for a string, counted lists of
/// length-prefixed strings for the structured variants.
pub open spec fn spec_value_bytes(m: CacheValueModel) -> Seq<u8> {
    match m {
        CacheValueModel::String(s) => encode_utf8(s),
        CacheValueModel::StringMap(l) => spec_pairs_list_bytes(l),
        CacheValueModel::UserSession(u) => spec_str_bytes(u.username) + spec_str_bytes(u.nickname)
            + spec_str_list_bytes(u.roles) + spec_pairs_list_bytes(u.extend_infos),
        CacheValueModel::ApiTokenSession(t) => spec_str_bytes(t.username) + spec_str_list_bytes(
            t.roles,
        ),
    }
}

/// What decoding bytes under a declared type yields: the payload whose
/// encoding the bytes are, entirely, or a decode error.
pub open spec fn spec_parse_value(b: Seq<u8>, t: CacheType) -> Result<CacheValueModel, CacheError> {
    match t {
        CacheType::String => if valid_utf8(b) {
            Ok(CacheValueModel::String(decode_utf8(b)))
        } else {
            Err(CacheError::DecodeError)
        },
        CacheType::StringMap => match spec_parse_pairs_list(b) {
            None => Err(CacheError::DecodeError),
            Some((l, n)) => if n == b.len() {
                Ok(CacheValueModel::StringMap(l))
            } else {
                Err(CacheError::DecodeError)
            },
        },
        CacheType::UserSession => match spec_parse_str(b) {
            None => Err(CacheError::DecodeError),
            Some((username, n1)) => match spec_parse_str(b.skip(n1)) {
                None => Err(CacheError::DecodeError),
                Some((nickname, n2)) => match spec_parse_str_list(b.skip(n1 + n2)) {
                    None => Err(CacheError::DecodeError),
                    Some((roles, n3)) => match spec_parse_pairs_list(b.skip(n1 + n2 + n3)) {
                        None => Err(CacheError::DecodeError),
                        Some((extend_infos, n4)) => if n1 + n2 + n3 + n4 == b.len() {
                            Ok(
                                CacheValueModel::UserSession(
                                    UserSessionModel { username, nickname, roles, extend_infos },
                                ),
                            )
                        } else {
                            Err(CacheError::DecodeError)
                        },
                    },
                },
            },
        },
        CacheType::ApiTokenSession => match spec_parse_str(b) {
            None => Err(CacheError::DecodeError),
            Some((username, n1)) => match spec_parse_str_list(b.skip(n1)) {
                None => Err(CacheError::DecodeError),
                Some((roles, n2)) => if n1 + n2 == b.len() {
                    Ok(CacheValueModel::ApiTokenSession(TokenSessionModel { username, roles }))
                } else {
                    Err(CacheError::DecodeError)
                },
            },
        },
    }
}

impl Default for CacheValue {
    /// The default payload is the empty opaque string.
    fn default() -> (r: Self)
        ensures
            r@ == CacheValueModel::String(Seq::<char>::empty()),
    {
        CacheValue::String(String::new())
    }
}

impl CacheValue {
    /// The type tag of this payload; the envelope always takes its tag from
    /// here, never from the caller.
    pub fn get_cache_type(&self) -> (r: CacheType)
        ensures
            r == spec_model_type(self@),
    {
        match self {
            CacheValue::String(_) => CacheType::String,
            CacheValue::StringMap(_) => CacheType::StringMap,
            CacheValue::UserSession(_) => CacheType::UserSession,
            CacheValue::ApiTokenSession(_) => CacheType::ApiTokenSession,
        }
    }

    /// The deterministic byte encoding of this payload.
    pub fn to_bytes(&self) -> (r: Vec<u8>)
        ensures
            r@ == spec_value_bytes(self@),
    {
        match self {
            CacheValue::String(s) => s.as_str().as_bytes_vec(),
            CacheValue::StringMap(m) => {
                let mut out: Vec<u8> = Vec::new();
                write_pairs_list(m, &mut out);
                out
            },
            CacheValue::UserSession(u) => {
                let mut out: Vec<u8> = Vec::new();
                write_str(u.username.as_str(), &mut out);
                write_str(u.nickname.as_str(), &mut out);
                write_str_list(&u.roles, &mut out);
                write_pairs_list(&u.extend_infos, &mut out);
                proof {
                    assert(out@ =~= spec_value_bytes(self@));
                }
                out
            },
            CacheValue::ApiTokenSession(t) => {
                let mut out: Vec<u8> = Vec::new();
                write_str(t.username.as_str(), &mut out);
                write_str_list(&t.roles, &mut out);
                proof {
                    assert(out@ =~= spec_value_bytes(self@));
                }
                out
            },
        }
    }

    /// Decodes bytes under a declared type, exactly as `spec_parse_value`
    /// says; bytes produced for another structure are refused.
    pub fn from_bytes(data: Vec<u8>, cache_type: CacheType) -> (r: Result<CacheValue, CacheError>)
        ensures
            match r {
                Ok(v) => spec_parse_value(data@, cache_type) == Ok::<_, CacheError>(v@),
                Err(e) => spec_parse_value(data@, cache_type) == Err::<CacheValueModel, _>(e),
            },
    {
        match cache_type {
            CacheType::String => {
                match utf8_to_string(data) {
                    None => Err(CacheError::DecodeError),
                    Some(s) => Ok(CacheValue::String(s)),
                }
            },
            CacheType::StringMap => {
                proof {
                    assert(data@.skip(0) =~= data@);
                }
                match read_pairs_list(&data, 0) {
                    None => Err(CacheError::DecodeError),
                    Some((l, n)) => {
                        if n == data.len() {
                            Ok(CacheValue::StringMap(l))
                        } else {
                            Err(CacheError::DecodeError)
                        }
                    },
                }
            },
            CacheType::UserSession => {
                proof {
                    assert(data@.skip(0) =~= data@);
                }
                match read_str(&data, 0) {
                    None => Err(CacheError::DecodeError),
                    Some((username, p1)) => {
                        match read_str(&data, p1) {
                            None => Err(CacheError::DecodeError),
                            Some((nickname, p2)) => {
                                proof {
                                    let n1 = spec_parse_str(data@)->Some_0.1;
                                    assert(data@.skip(n1) =~= data@.skip(p1 as int));
                                }
                                match read_str_list(&data, p2) {
                                    None => Err(CacheError::DecodeError),
                                    Some((roles, p3)) => {
                                        proof {
                                            let n1 = spec_parse_str(data@)->Some_0.1;
                                            let n2 = spec_parse_str(data@.skip(n1))->Some_0.1;
                                            assert(data@.skip(n1 + n2) =~= data@.skip(p2 as int));
                                        }
                                        match read_pairs_list(&data, p3) {
                                            None => Err(CacheError::DecodeError),
                                            Some((extend_infos, p4)) => {
                                                proof {
                                                    let n1 = spec_parse_str(data@)->Some_0.1;
                                                    let n2 = spec_parse_str(
                                                        data@.skip(n1),
                                                    )->Some_0.1;
                                                    let n3 = spec_parse_str_list(
                                                        data@.skip(n1 + n2),
                                                    )->Some_0.1;
                                                    assert(data@.skip(n1 + n2 + n3) =~= data@.skip(
                                                        p3 as int,
                                                    ));
                                                }
                                                if p4 == data.len() {
                                                    Ok(
                                                        CacheValue::UserSession(
                                                            UserSession {
                                                                username,
                                                                nickname,
                                                                roles,
                                                                extend_infos,
                                                            },
                                                        ),
                                                    )
                                                } else {
                                                    Err(CacheError::DecodeError)
                                                }
                                            },
                                        }
                                    },
                                }
                            },
                        }
                    },
                }
            },
            CacheType::ApiTokenSession => {
                proof {
                    assert(data@.skip(0) =~= data@);
                }
                match read_str(&data, 0) {
                    None => Err(CacheError::DecodeError),
                    Some((username, p1)) => {
                        proof {
                            let n1 = spec_parse_str(data@)->Some_0.1;
                            assert(data@.skip(n1) =~= data@.skip(p1 as int));
                        }
                        match read_str_list(&data, p1) {
                            None => Err(CacheError::DecodeError),
                            Some((roles, p2)) => {
                                if p2 == data.len() {
                                    Ok(CacheValue::ApiTokenSession(TokenSession { username, roles }))
                                } else {
                                    Err(CacheError::DecodeError)
                                }
                            },
                        }
                    },
                }
            },
        }
    }
}

/// The machine-size bounds under which a payload's encoding is well formed;
/// every payload held in memory meets them.
pub open spec fn spec_value_wf(m: CacheValueModel) -> bool {
    match m {
        CacheValueModel::String(_) => true,
        CacheValueModel::StringMap(l) => l.len() <= u64::MAX && forall|i: int|
            0 <= i < l.len() ==> #[trigger] encode_utf8(l[i].0).len() <= u64::MAX && encode_utf8(
                l[i].1,
            ).len() <= u64::MAX,
        CacheValueModel::UserSession(u) => encode_utf8(u.username).len() <= u64::MAX && encode_utf8(
            u.nickname,
        ).len() <= u64::MAX && u.roles.len() <= u64::MAX && (forall|i: int|
            0 <= i < u.roles.len() ==> #[trigger] encode_utf8(u.roles[i]).len() <= u64::MAX)
            && u.extend_infos.len() <= u64::MAX && (forall|i: int|
            0 <= i < u.extend_infos.len() ==> #[trigger] encode_utf8(u.extend_infos[i].0).len()
                <= u64::MAX && encode_utf8(u.extend_infos[i].1).len() <= u64::MAX),
        CacheValueModel::ApiTokenSession(t) => encode_utf8(t.username).len() <= u64::MAX
            && t.roles.len() <= u64::MAX && (forall|i: int|
            0 <= i < t.roles.len() ==> #[trigger] encode_utf8(t.roles[i]).len() <= u64::MAX),
    }
}

/// Decoding an encoded payload under its own type gives the payload back,
/// for every variant.
pub proof fn lemma_value_round_trip(m: CacheValueModel)
    requires
        spec_value_wf(m),
    ensures
        spec_parse_value(spec_value_bytes(m), spec_model_type(m)) == Ok::<_, CacheError>(m),
{
    let b = spec_value_bytes(m);
    let e: Seq<u8> = Seq::empty();
    match m {
        CacheValueModel::String(s) => {
            encode_utf8_valid_utf8(s);
            encode_utf8_decode_utf8(s);
        },
        CacheValueModel::StringMap(l) => {
            lemma_pairs_list_round_trip(l, e);
            assert(spec_pairs_list_bytes(l) + e =~= b);
        },
        CacheValueModel::UserSession(u) => {
            let b1 = spec_str_bytes(u.username);
            let b2 = spec_str_bytes(u.nickname);
            let b3 = spec_str_list_bytes(u.roles);
            let b4 = spec_pairs_list_bytes(u.extend_infos);
            assert(b =~= b1 + (b2 + (b3 + b4)));
            lemma_str_round_trip(u.username, b2 + (b3 + b4));
            let n1 = b1.len() as int;
            assert(b.skip(n1) =~= b2 + (b3 + b4));
            lemma_str_round_trip(u.nickname, b3 + b4);
            let n2 = b2.len() as int;
            assert(b.skip(n1 + n2) =~= b3 + b4);
            lemma_str_list_round_trip(u.roles, b4);
            let n3 = b3.len() as int;
            assert(b.skip(n1 + n2 + n3) =~= b4 + e);
            lemma_pairs_list_round_trip(u.extend_infos, e);
            assert(n1 + n2 + n3 + b4.len() == b.len());
        },
        CacheValueModel::ApiTokenSession(t) => {
            let b1 = spec_str_bytes(t.username);
            let b2 = spec_str_list_bytes(t.roles);
            assert(b =~= b1 + (b2 + e));
            lemma_str_round_trip(t.username, b2 + e);
            let n1 = b1.len() as int;
            assert(b.skip(n1) =~= b2 + e);
            lemma_str_list_round_trip(t.roles, e);
            assert(n1 + b2.len() == b.len());
        },
    }
}

} // verus!
