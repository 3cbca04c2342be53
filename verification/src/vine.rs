//! Vine modern forwarding: the proxy answers the server's login query with a
//! signed payload that carries the player's address and profile.

use vstd::prelude::*;
use vstd::utf8::encode_utf8;

use std::time::{SystemTime, UNIX_EPOCH};

use crate::plugin_response::ForwardingState;
use crate::ser::{
    u64_from_be, after_prefix, lemma_parse_repeat_step, parse_bool, parse_fixed,
    parse_repeat, parse_string, parse_u64_be, read_bool, read_fixed, read_string, read_u64_be,
    ReadingError,
};
use crate::var_int::{parse_var_int, read_var_int, VarInt};
use crate::crypto::{
    ed25519_key_decompresses, ed25519_point_decompresses, ed25519_public_key_from_seed,
    ed25519_public_key_of_seed, ed25519_signature_accepted, ed25519_verify, hex_decode,
    hex_decoded, sha256, sha256_digest,
};

verus! {

/// The channel of the login query that starts Vine forwarding.
pub const VINE_PLAYER_INFO_CHANNEL: &'static str = "vine:player_info";

/// The forwarding version this server speaks.
pub const VINE_FORWARDING_VERSION: i32 = 1;

/// How far, in seconds, the proxy's timestamp may be from the server's clock.
pub const MAX_TIMESTAMP_DRIFT_SECS: i64 = 30;

/// Why a Vine forwarding reply was refused.
#[derive(Clone, Copy, Debug, PartialEq, Eq, Structural)]
pub enum VineError {
    NoData,
    DataTooShort,
    MissingKeyConfig,
    InvalidPublicKey,
    InvalidSignature,
    FailedReadForwardVersion,
    UnsupportedForwardVersion(i32, i32),
    TimestampExpired(i64, i64),
    ChallengeMismatch,
    MissingChallenge,
    FailedReadAddress,
    FailedParseAddress,
    FailedReadProfileName,
    FailedReadProfileUUID,
    FailedReadProfileProperties,
}

/// How the server knows the proxy's key: a hex-encoded public key, or a
/// secret from which the key pair is derived.
pub struct VineConfig {
    pub enabled: bool,
    pub public_key: String,
    pub secret: String,
}

/// Whether `c` has the Unicode property White_Space.
pub open spec fn is_white_space(c: char) -> bool {
    let u = c as u32;
    ||| 0x09 <= u <= 0x0d
    ||| u == 0x20
    ||| u == 0x85
    ||| u == 0xa0
    ||| u == 0x1680
    ||| 0x2000 <= u <= 0x200a
    ||| u == 0x2028
    ||| u == 0x2029
    ||| u == 0x202f
    ||| u == 0x205f
    ||| u == 0x3000
}

/// Whether every character of `s` is white space.
pub open spec fn is_blank(s: Seq<char>) -> bool {
    forall|i: int| 0 <= i < s.len() ==> #[trigger] is_white_space(s[i])
}

/// `s` without its leading white space.
pub open spec fn trim_start(s: Seq<char>) -> Seq<char>
    decreases s.len(),
{
    if s.len() > 0 && is_white_space(s[0]) {
        trim_start(s.drop_first())
    } else {
        s
    }
}

/// `s` without its trailing white space.
pub open spec fn trim_end(s: Seq<char>) -> Seq<char>
    decreases s.len(),
{
    if s.len() > 0 && is_white_space(s.last()) {
        trim_end(s.drop_last())
    } else {
        s
    }
}

/// `s` without leading and trailing white space.
pub open spec fn str_trimmed(s: Seq<char>) -> Seq<char> {
    trim_end(trim_start(s))
}

/// `str::trim`: the string without leading and trailing characters of the
/// Unicode property White_Space.
#[verifier::external_body]
fn trim(s: &str) -> (t: &str)
    ensures
        t@ == str_trimmed(s@),
{
    s.trim()
}

proof fn lemma_trim_start_blank(w: Seq<char>)
    requires
        is_blank(w),
    ensures
        trim_start(w) == Seq::<char>::empty(),
    decreases w.len(),
{
    if w.len() > 0 {
        assert(is_white_space(w[0]));
        assert(is_blank(w.drop_first())) by {
            assert forall|i: int| 0 <= i < w.drop_first().len() implies #[trigger] is_white_space(
                w.drop_first()[i],
            ) by {
                assert(is_white_space(w[i + 1]));
            }
        }
        lemma_trim_start_blank(w.drop_first());
    }
}

proof fn lemma_trim_start_blank_prefix(w: Seq<char>, s: Seq<char>)
    requires
        is_blank(w),
    ensures
        trim_start(w + s) == trim_start(s),
    decreases w.len(),
{
    if w.len() > 0 {
        assert(is_white_space(w[0]));
        assert((w + s)[0] == w[0]);
        assert((w + s).drop_first() =~= w.drop_first() + s);
        assert(is_blank(w.drop_first())) by {
            assert forall|i: int| 0 <= i < w.drop_first().len() implies #[trigger] is_white_space(
                w.drop_first()[i],
            ) by {
                assert(is_white_space(w[i + 1]));
            }
        }
        lemma_trim_start_blank_prefix(w.drop_first(), s);
    } else {
        assert(w + s =~= s);
    }
}

proof fn lemma_trim_end_blank_suffix(s: Seq<char>, w: Seq<char>)
    requires
        is_blank(w),
    ensures
        trim_end(s + w) == trim_end(s),
    decreases w.len(),
{
    if w.len() > 0 {
        assert(is_white_space(w.last()));
        assert((s + w).last() == w.last());
        assert((s + w).drop_last() =~= s + w.drop_last());
        assert(is_blank(w.drop_last())) by {
            assert forall|i: int| 0 <= i < w.drop_last().len() implies #[trigger] is_white_space(
                w.drop_last()[i],
            ) by {
                assert(is_white_space(w[i]));
            }
        }
        lemma_trim_end_blank_suffix(s, w.drop_last());
    } else {
        assert(s + w =~= s);
    }
}

proof fn lemma_trimmed_blank_suffix(s: Seq<char>, w: Seq<char>)
    requires
        is_blank(w),
    ensures
        str_trimmed(s + w) == str_trimmed(s),
    decreases s.len(),
{
    if s.len() == 0 {
        assert(s + w =~= w);
        lemma_trim_start_blank(w);
    } else if is_white_space(s[0]) {
        assert((s + w)[0] == s[0]);
        assert((s + w).drop_first() =~= s.drop_first() + w);
        lemma_trimmed_blank_suffix(s.drop_first(), w);
    } else {
        assert((s + w)[0] == s[0]);
        lemma_trim_end_blank_suffix(s, w);
    }
}

/// White space before and after a string does not change what it trims to.
pub proof fn lemma_trimmed_ignores_blank_ends(before: Seq<char>, s: Seq<char>, after: Seq<char>)
    requires
        is_blank(before),
        is_blank(after),
    ensures
        str_trimmed(before + s + after) == str_trimmed(s),
{
    lemma_trim_start_blank_prefix(before, s + after);
    assert(before + s + after =~= before + (s + after));
    lemma_trimmed_blank_suffix(s, after);
}

/// An Ed25519 public key: 32 bytes that decompress to a curve point.
#[derive(Debug, PartialEq, Eq)]
pub struct VerifyingKey {
    bytes: Vec<u8>,
}

impl View for VerifyingKey {
    type V = Seq<u8>;

    closed spec fn view(&self) -> Seq<u8> {
        self.bytes@
    }
}

impl VerifyingKey {
    #[verifier::type_invariant]
    spec fn is_curve_point(self) -> bool {
        self.bytes@.len() == 32 && ed25519_point_decompresses(self.bytes@)
    }

    /// The key's 32 bytes.
    pub fn to_bytes(&self) -> (r: Vec<u8>)
        ensures
            r@ == self@,
    {
        crate::light_arrays::copy_bytes(&self.bytes)
    }

    /// Whether the 64-byte `signature` is a valid signature of `message` under
    /// this key.
    pub fn verify(&self, message: &[u8], signature: &[u8]) -> (ok: bool)
        requires
            signature@.len() == 64,
        ensures
            ok == ed25519_signature_accepted(self@, message@, signature@),
    {
        proof {
            use_type_invariant(self);
        }
        ed25519_verify(self.bytes.as_slice(), message, signature)
    }
}

/// The 32-byte seed that a secret gives: the SHA-256 digest of its UTF-8
/// bytes.
pub open spec fn seed_of_secret(secret: Seq<char>) -> Seq<u8> {
    sha256_digest(encode_utf8(secret))
}

/// The key that the configuration names. A non-blank public key must be 64
/// hex digits of a curve point; otherwise a non-blank secret gives the key
/// pair's public half; with neither, the key is missing.
pub open spec fn configured_key(public_key: Seq<char>, secret: Seq<char>) -> Result<
    Seq<u8>,
    VineError,
> {
    let pk = str_trimmed(public_key);
    let sc = str_trimmed(secret);
    if pk.len() != 0 {
        match hex_decoded(encode_utf8(pk)) {
            None => Err(VineError::InvalidPublicKey),
            Some(b) => if b.len() != 32 || !ed25519_point_decompresses(b) {
                Err(VineError::InvalidPublicKey)
            } else {
                Ok(b)
            },
        }
    } else if sc.len() != 0 {
        Ok(ed25519_public_key_of_seed(seed_of_secret(sc)))
    } else {
        Err(VineError::MissingKeyConfig)
    }
}

/// White space around the configured public key or secret changes nothing:
/// the configuration names the same key, or fails with the same error.
pub proof fn lemma_key_ignores_surrounding_whitespace(
    public_key: Seq<char>,
    secret: Seq<char>,
    before_key: Seq<char>,
    after_key: Seq<char>,
    before_secret: Seq<char>,
    after_secret: Seq<char>,
)
    requires
        is_blank(before_key),
        is_blank(after_key),
        is_blank(before_secret),
        is_blank(after_secret),
    ensures
        configured_key(before_key + public_key + after_key, before_secret + secret + after_secret)
            == configured_key(public_key, secret),
{
    lemma_trimmed_ignores_blank_ends(before_key, public_key, after_key);
    lemma_trimmed_ignores_blank_ends(before_secret, secret, after_secret);
}

/// A non-blank public key is the only source of the key: the secret then
/// plays no part, a key that is not 64 hex digits of a curve point is
/// refused as `InvalidPublicKey`, and otherwise the key is the bytes that
/// the hex digits spell. With a blank public key and a non-blank secret the
/// key is the public half of the key pair whose seed is the SHA-256 digest of
/// the trimmed secret; with both blank the key is missing.
pub proof fn lemma_key_sources(public_key: Seq<char>, secret: Seq<char>, other_secret: Seq<char>)
    ensures
        str_trimmed(public_key).len() != 0 ==> {
            let h = hex_decoded(encode_utf8(str_trimmed(public_key)));
            let r = configured_key(public_key, secret);
            &&& r == configured_key(public_key, other_secret)
            &&& r is Err ==> r == Err::<Seq<u8>, VineError>(VineError::InvalidPublicKey)
            &&& h is None ==> r == Err::<Seq<u8>, VineError>(VineError::InvalidPublicKey)
            &&& r is Ok ==> h == Some(r.unwrap()) && r.unwrap().len() == 32
                && ed25519_point_decompresses(r.unwrap())
            &&& (h is Some && h.unwrap().len() == 32 && ed25519_point_decompresses(h.unwrap()))
                ==> r == Ok::<Seq<u8>, VineError>(h.unwrap())
        },
        str_trimmed(public_key).len() == 0 && str_trimmed(secret).len() != 0 ==> configured_key(
            public_key,
            secret,
        ) == Ok::<Seq<u8>, VineError>(
            ed25519_public_key_of_seed(sha256_digest(encode_utf8(str_trimmed(secret)))),
        ),
        str_trimmed(public_key).len() == 0 && str_trimmed(secret).len() == 0 ==> configured_key(
            public_key,
            secret,
        ) == Err::<Seq<u8>, VineError>(VineError::MissingKeyConfig),
{
}

/// Derives the proxy's verifying key from the configuration: a non-blank
/// `public_key` is parsed as hex, otherwise the SHA-256 digest of a non-blank
/// `secret` is the seed of the key pair.
pub fn get_verifying_key(config: &VineConfig) -> (r: Result<VerifyingKey, VineError>)
    ensures
        match configured_key(config.public_key@, config.secret@) {
            Ok(b) => r matches Ok(k) && k@ == b,
            Err(e) => r matches Err(x) && x == e,
        },
        r matches Ok(k) ==> k@.len() == 32 && ed25519_point_decompresses(k@),
        str_trimmed(config.public_key@).len() != 0 ==> (r matches Ok(k) ==> hex_decoded(
            encode_utf8(str_trimmed(config.public_key@)),
        ) == Some(k@)) && (r matches Err(e) ==> e == VineError::InvalidPublicKey),
{
    let pk = trim(config.public_key.as_str());
    if !pk.is_empty() {
        let bytes = match hex_decode(pk) {
            Some(b) => b,
            None => return Err(VineError::InvalidPublicKey),
        };
        if bytes.len() != 32 {
            return Err(VineError::InvalidPublicKey);
        }
        if !ed25519_key_decompresses(bytes.as_slice()) {
            return Err(VineError::InvalidPublicKey);
        }
        Ok(VerifyingKey { bytes })
    } else {
        let secret = trim(config.secret.as_str());
        if !secret.is_empty() {
            let seed = sha256(secret.as_bytes());
            let public = ed25519_public_key_from_seed(seed.as_slice());
            Ok(VerifyingKey { bytes: public })
        } else {
            Err(VineError::MissingKeyConfig)
        }
    }
}

/// The proxy's answer to a login query: the query's id and, when the proxy
/// understood the query, its data.
pub struct SLoginPluginResponse {
    pub message_id: VarInt,
    pub data: Option<Vec<u8>>,
}

/// The bytes of the reply's data, if it has any.
pub open spec fn data_view(data: Option<Vec<u8>>) -> Option<Seq<u8>> {
    match data {
        Some(d) => Some(d@),
        None => None,
    }
}

/// The length of the Ed25519 signature that opens a Vine reply.
pub const SIGNATURE_LENGTH: usize = 64;

/// The fewest bytes a Vine reply can have: the signature, a one-byte VarInt
/// version, the eight-byte timestamp and the sixteen-byte challenge.
pub const MIN_RESPONSE_LENGTH: usize = 89;

/// The integer `d` held to the range of `i64`.
pub open spec fn clamp_i64(d: int) -> i64 {
    if d > i64::MAX {
        i64::MAX
    } else if d < i64::MIN {
        i64::MIN
    } else {
        d as i64
    }
}

/// How many seconds the server's clock is ahead of the proxy's timestamp,
/// both read as signed 64-bit integers.
pub open spec fn timestamp_drift(now: u64, timestamp: u64) -> int {
    (now as i64) as int - (timestamp as i64) as int
}

/// The checks on the signed part of a reply, in order: the forwarding
/// version, the timestamp's drift from `now`, the challenge, and the client's
/// address. The result is the address and where the profile begins.
pub open spec fn check_payload(p: Seq<u8>, expected: Seq<u8>, now: u64) -> Result<
    (Seq<char>, nat),
    VineError,
> {
    match parse_var_int(p) {
        Err(_) => Err(VineError::FailedReadForwardVersion),
        Ok((version, n1)) => if version != VINE_FORWARDING_VERSION {
            Err(VineError::UnsupportedForwardVersion(version, VINE_FORWARDING_VERSION))
        } else {
            match parse_u64_be(p.skip(n1 as int)) {
                Err(_) => Err(VineError::DataTooShort),
                Ok((timestamp, n2)) => {
                    let d = timestamp_drift(now, timestamp);
                    if d > MAX_TIMESTAMP_DRIFT_SECS || d < -MAX_TIMESTAMP_DRIFT_SECS {
                        Err(VineError::TimestampExpired(clamp_i64(d), MAX_TIMESTAMP_DRIFT_SECS))
                    } else {
                        match parse_fixed(p.skip((n1 + n2) as int), 16) {
                            Err(_) => Err(VineError::DataTooShort),
                            Ok((challenge, n3)) => if challenge != expected {
                                Err(VineError::ChallengeMismatch)
                            } else {
                                match parse_string(p.skip((n1 + n2 + n3) as int)) {
                                    Err(_) => Err(VineError::FailedReadAddress),
                                    Ok((address, n4)) => Ok((address, n1 + n2 + n3 + n4)),
                                }
                            },
                        }
                    }
                },
            }
        },
    }
}

/// The verdict on a Vine reply checked at time `now`, in the order of the
/// checks: a challenge must have been sent, the reply must carry data of at
/// least `MIN_RESPONSE_LENGTH` bytes, the configured key must be usable, the
/// signature over everything after its 64 bytes must verify, and the signed
/// part must pass `check_payload`. The result is the client's address and
/// where in the data its profile begins.
pub open spec fn vine_response_verdict(
    public_key: Seq<char>,
    secret: Seq<char>,
    data: Option<Seq<u8>>,
    expected: Option<[u8; 16]>,
    now: u64,
) -> Result<(Seq<char>, nat), VineError> {
    match expected {
        None => Err(VineError::MissingChallenge),
        Some(challenge) => match data {
            None => Err(VineError::NoData),
            Some(d) => if d.len() < MIN_RESPONSE_LENGTH {
                Err(VineError::DataTooShort)
            } else {
                match configured_key(public_key, secret) {
                    Err(e) => Err(e),
                    Ok(key) => if !ed25519_signature_accepted(
                        key,
                        d.skip(SIGNATURE_LENGTH as int),
                        d.take(SIGNATURE_LENGTH as int),
                    ) {
                        Err(VineError::InvalidSignature)
                    } else {
                        match check_payload(d.skip(SIGNATURE_LENGTH as int), challenge@, now) {
                            Err(e) => Err(e),
                            Ok((address, n)) => Ok((address, (SIGNATURE_LENGTH + n) as nat)),
                        }
                    },
                }
            },
        },
    }
}

/// Whether `r` is what a reply with `data` and the verdict `v` gives: on
/// success, the verdict's address and the profile read from `data` where
/// the verdict says it begins (or the error of reading it); otherwise the
/// verdict's error.
pub open spec fn is_reply_outcome(
    r: Result<(String, Result<GameProfile, VineError>), VineError>,
    data: Option<Seq<u8>>,
    v: Result<(Seq<char>, nat), VineError>,
) -> bool {
    match v {
        Ok((address, n)) => r matches Ok((a, profile)) && a@ == address && match parse_game_profile(
            data.unwrap().skip(n as int),
        ) {
            Ok(m) => profile matches Ok(g) && g@ == m,
            Err(e) => profile matches Err(x) && x == e,
        },
        Err(e) => r matches Err(x) && x == e,
    }
}

/// A reply is accepted only when it is at least `MIN_RESPONSE_LENGTH` bytes,
/// its first 64 bytes are a valid signature by the configured key of all the
/// bytes after them, and those signed bytes carry the forwarding version 1, a
/// timestamp within `MAX_TIMESTAMP_DRIFT_SECS` of the clock, and exactly the
/// challenge that was sent.
pub proof fn lemma_accepted_reply_is_authentic(
    public_key: Seq<char>,
    secret: Seq<char>,
    data: Seq<u8>,
    expected: [u8; 16],
    now: u64,
)
    requires
        vine_response_verdict(public_key, secret, Some(data), Some(expected), now) is Ok,
    ensures
        data.len() >= MIN_RESPONSE_LENGTH,
        configured_key(public_key, secret) matches Ok(key) && ed25519_signature_accepted(
            key,
            data.skip(SIGNATURE_LENGTH as int),
            data.take(SIGNATURE_LENGTH as int),
        ),
        parse_var_int(data.skip(SIGNATURE_LENGTH as int)) matches Ok((version, n)) && version
            == VINE_FORWARDING_VERSION && -MAX_TIMESTAMP_DRIFT_SECS <= timestamp_drift(
            now,
            u64_from_be(data.skip(SIGNATURE_LENGTH + n)),
        ) <= MAX_TIMESTAMP_DRIFT_SECS && data.subrange(
            SIGNATURE_LENGTH + n + 8,
            SIGNATURE_LENGTH + n + 24,
        ) == expected@,
{
    let p = data.skip(SIGNATURE_LENGTH as int);
    crate::var_int::lemma_parse_var_int_len(p);
    let (version, n) = parse_var_int(p).unwrap();
    let q = p.skip(n as int);
    assert(q =~= data.skip(SIGNATURE_LENGTH + n));
    let (ts, n2) = parse_u64_be(q).unwrap();
    let (challenge, _) = parse_fixed(p.skip((n + n2) as int), 16).unwrap();
    assert(n2 == 8);
    assert(ts == u64_from_be(data.skip(SIGNATURE_LENGTH + n)));
    assert(-MAX_TIMESTAMP_DRIFT_SECS <= timestamp_drift(now, ts) <= MAX_TIMESTAMP_DRIFT_SECS);
    assert(challenge == expected@);
    assert(version == VINE_FORWARDING_VERSION);
    assert(challenge =~= data.subrange(SIGNATURE_LENGTH + n + 8, SIGNATURE_LENGTH + n + 24));
}

/// Whether `a` and `b` hold the same bytes.
fn bytes_equal(a: &[u8], b: &[u8]) -> (r: bool)
    ensures
        r == (a@ == b@),
{
    if a.len() != b.len() {
        return false;
    }
    let mut i: usize = 0;
    while i < a.len()
        invariant
            a@.len() == b@.len(),
            i <= a@.len(),
            a@.take(i as int) == b@.take(i as int),
        decreases a@.len() - i,
    {
        if a[i] != b[i] {
            assert(a@[i as int] != b@[i as int]);
            return false;
        }
        assert(a@.take(i + 1) =~= a@.take(i as int).push(a@[i as int]));
        assert(b@.take(i + 1) =~= b@.take(i as int).push(b@[i as int]));
        i = i + 1;
    }
    assert(a@.take(i as int) =~= a@);
    assert(b@.take(i as int) =~= b@);
    true
}

/// Runs the checks of `check_payload` on `data[start..]`; positions are
/// indices into `data`.
fn check_signed_part(data: &[u8], start: usize, expected: &[u8; 16], now: u64) -> (r: Result<
    (String, usize),
    VineError,
>)
    requires
        start <= data@.len(),
    ensures
        match check_payload(data@.skip(start as int), expected@, now) {
            Ok((address, n)) => r matches Ok((a, p)) && a@ == address && p == start + n,
            Err(e) => r matches Err(x) && x == e,
        },
        r matches Ok((_, p)) ==> p <= data@.len(),
{
    let ghost p = data@.skip(start as int);
    let (version, p1) = match read_var_int(data, start) {
        Ok(x) => x,
        Err(_) => return Err(VineError::FailedReadForwardVersion),
    };
    if version.0 != VINE_FORWARDING_VERSION {
        return Err(VineError::UnsupportedForwardVersion(version.0, VINE_FORWARDING_VERSION));
    }
    assert(data@.skip(p1 as int) =~= p.skip(p1 - start));
    let (timestamp, p2) = match read_u64_be(data, p1) {
        Ok(x) => x,
        Err(_) => return Err(VineError::DataTooShort),
    };
    let drift: i128 = (now as i64) as i128 - (timestamp as i64) as i128;
    if drift > MAX_TIMESTAMP_DRIFT_SECS as i128 || drift < -(MAX_TIMESTAMP_DRIFT_SECS as i128) {
        let reported: i64 = if drift > i64::MAX as i128 {
            i64::MAX
        } else if drift < i64::MIN as i128 {
            i64::MIN
        } else {
            drift as i64
        };
        return Err(VineError::TimestampExpired(reported, MAX_TIMESTAMP_DRIFT_SECS));
    }
    assert(data@.skip(p2 as int) =~= p.skip(p2 - start));
    let (challenge, p3) = match read_fixed(data, p2, 16) {
        Ok(x) => x,
        Err(_) => return Err(VineError::DataTooShort),
    };
    if !bytes_equal(challenge.as_slice(), expected.as_slice()) {
        return Err(VineError::ChallengeMismatch);
    }
    assert(data@.skip(p3 as int) =~= p.skip(p3 - start));
    let (address, p4) = match read_string(data, p3) {
        Ok(x) => x,
        Err(_) => return Err(VineError::FailedReadAddress),
    };
    Ok((address, p4))
}

/// Checks a Vine reply as if the clock read `now`: see `vine_response_verdict`.
/// On success, the client's address as the proxy wrote it, and the result of
/// reading the game profile that follows it.
pub fn check_vine_plugin_response(
    config: &VineConfig,
    response: &SLoginPluginResponse,
    expected_challenge: Option<[u8; 16]>,
    now: u64,
) -> (r: Result<(String, Result<GameProfile, VineError>), VineError>)
    ensures
        is_reply_outcome(
            r,
            data_view(response.data),
            vine_response_verdict(
                config.public_key@,
                config.secret@,
                data_view(response.data),
                expected_challenge,
                now,
            ),
        ),
{
    let expected = match expected_challenge {
        Some(c) => c,
        None => return Err(VineError::MissingChallenge),
    };
    let data = match &response.data {
        Some(d) => d,
        None => return Err(VineError::NoData),
    };
    if data.len() < MIN_RESPONSE_LENGTH {
        return Err(VineError::DataTooShort);
    }
    let key = get_verifying_key(config)?;
    let signature = vstd::slice::slice_subrange(data.as_slice(), 0, SIGNATURE_LENGTH);
    let payload = vstd::slice::slice_subrange(data.as_slice(), SIGNATURE_LENGTH, data.len());
    assert(signature@ =~= data@.take(SIGNATURE_LENGTH as int));
    assert(payload@ =~= data@.skip(SIGNATURE_LENGTH as int));
    if !key.verify(payload, signature) {
        return Err(VineError::InvalidSignature);
    }
    let (address, profile_start) = check_signed_part(
        data.as_slice(),
        SIGNATURE_LENGTH,
        &expected,
        now,
    )?;
    let profile = read_game_profile(data.as_slice(), profile_start);
    Ok((address, profile))
}

/// The clock: whole seconds since the Unix epoch, or 0 when the clock reads
/// earlier than the epoch. Nothing is claimed of the value.
#[verifier::external_body]
fn unix_time_secs() -> u64 {
    match SystemTime::now().duration_since(UNIX_EPOCH) {
        Ok(d) => d.as_secs(),
        Err(_) => 0,
    }
}

/// Checks a Vine reply against the server's clock: what
/// `check_vine_plugin_response` gives for the time that the clock read.
pub fn receive_vine_plugin_response(
    config: &VineConfig,
    response: &SLoginPluginResponse,
    expected_challenge: Option<[u8; 16]>,
) -> (r: Result<(String, Result<GameProfile, VineError>), VineError>)
    ensures
        exists|now: u64|
            is_reply_outcome(
                r,
                data_view(response.data),
                #[trigger] vine_response_verdict(
                    config.public_key@,
                    config.secret@,
                    data_view(response.data),
                    expected_challenge,
                    now,
                ),
            ),
{
    let now = unix_time_secs();
    check_vine_plugin_response(config, response, expected_challenge, now)
}

/// A signed property of a player's profile, such as the skin.
#[derive(Debug, PartialEq, Eq)]
pub struct Property {
    pub name: String,
    pub value: String,
    pub signature: Option<String>,
}

/// The characters of a property's fields.
pub struct PropertyModel {
    pub name: Seq<char>,
    pub value: Seq<char>,
    pub signature: Option<Seq<char>>,
}

impl View for Property {
    type V = PropertyModel;

    open spec fn view(&self) -> PropertyModel {
        PropertyModel {
            name: self.name@,
            value: self.value@,
            signature: match self.signature {
                Some(s) => Some(s@),
                None => None,
            },
        }
    }
}

/// A player's identity as the proxy forwards it.
#[derive(Debug, PartialEq, Eq)]
pub struct GameProfile {
    pub id: u128,
    pub name: String,
    pub properties: Vec<Property>,
}

/// The values of a profile.
pub struct GameProfileModel {
    pub id: u128,
    pub name: Seq<char>,
    pub properties: Seq<PropertyModel>,
}

/// The fields of each property.
pub open spec fn properties_view(ps: Seq<Property>) -> Seq<PropertyModel> {
    ps.map_values(|p: Property| p@)
}

impl View for GameProfile {
    type V = GameProfileModel;

    open spec fn view(&self) -> GameProfileModel {
        GameProfileModel {
            id: self.id,
            name: self.name@,
            properties: properties_view(self.properties@),
        }
    }
}

/// The unsigned integer whose big-endian bytes are `b`.
pub open spec fn be_value(b: Seq<u8>) -> nat
    decreases b.len(),
{
    if b.len() == 0 {
        0
    } else {
        be_value(b.drop_last()) * 256 + b.last() as nat
    }
}

/// `256` to the power `n`.
pub open spec fn pow256(n: nat) -> nat
    decreases n,
{
    if n == 0 {
        1
    } else {
        256 * pow256((n - 1) as nat)
    }
}

proof fn lemma_be_value_bound(b: Seq<u8>)
    ensures
        be_value(b) < pow256(b.len()),
    decreases b.len(),
{
    if b.len() > 0 {
        lemma_be_value_bound(b.drop_last());
        let v = be_value(b.drop_last());
        let p = pow256(b.drop_last().len());
        let x = b.last();
        assert(v * 256 + x < 256 * p) by (nonlinear_arith)
            requires
                v < p,
                x < 256,
        ;
    }
}

/// A UUID at the front of `s`: sixteen bytes, the most significant first.
pub open spec fn parse_uuid(s: Seq<u8>) -> Result<(u128, nat), ReadingError> {
    match parse_fixed(s, 16) {
        Err(e) => Err(e),
        Ok((b, n)) => Ok((be_value(b) as u128, n)),
    }
}

/// An optional string at the front of `s`: a boolean, then the string when
/// the boolean is true.
pub open spec fn parse_optional_string(s: Seq<u8>) -> Result<(Option<Seq<char>>, nat), ReadingError> {
    match parse_bool(s) {
        Err(e) => Err(e),
        Ok((present, n)) => if !present {
            Ok((None, n))
        } else {
            match parse_string(s.skip(n as int)) {
                Err(e) => Err(e),
                Ok((x, m)) => Ok((Some(x), n + m)),
            }
        },
    }
}

/// A property at the front of `s`: its name, its value and its optional
/// signature.
pub open spec fn parse_property(s: Seq<u8>) -> Result<(PropertyModel, nat), ReadingError> {
    match parse_string(s) {
        Err(e) => Err(e),
        Ok((name, n1)) => match parse_string(s.skip(n1 as int)) {
            Err(e) => Err(e),
            Ok((value, n2)) => match parse_optional_string(s.skip((n1 + n2) as int)) {
                Err(e) => Err(e),
                Ok((signature, n3)) => Ok(
                    (PropertyModel { name, value, signature }, n1 + n2 + n3),
                ),
            },
        },
    }
}

/// How one property of a list is read.
pub open spec fn property_item() -> spec_fn(Seq<u8>) -> Result<(PropertyModel, nat), ReadingError> {
    |t: Seq<u8>| parse_property(t)
}

/// A counted list of properties at the front of `s`. A negative count is too
/// large.
pub open spec fn parse_properties(s: Seq<u8>) -> Result<(Seq<PropertyModel>, nat), ReadingError> {
    match parse_var_int(s) {
        Err(e) => Err(e),
        Ok((count, n)) => if count < 0 {
            Err(ReadingError::TooLarge)
        } else {
            after_prefix(
                Seq::empty(),
                n,
                parse_repeat(s.skip(n as int), count as nat, property_item()),
            )
        },
    }
}

/// A game profile at the front of `s`: the UUID, the name, then the
/// properties; each part that cannot be read has an error of its own.
pub open spec fn parse_game_profile(s: Seq<u8>) -> Result<GameProfileModel, VineError> {
    match parse_uuid(s) {
        Err(_) => Err(VineError::FailedReadProfileUUID),
        Ok((id, n1)) => match parse_string(s.skip(n1 as int)) {
            Err(_) => Err(VineError::FailedReadProfileName),
            Ok((name, n2)) => match parse_properties(s.skip((n1 + n2) as int)) {
                Err(_) => Err(VineError::FailedReadProfileProperties),
                Ok((properties, _)) => Ok(GameProfileModel { id, name, properties }),
            },
        },
    }
}

fn read_uuid(data: &[u8], pos: usize) -> (r: Result<(u128, usize), ReadingError>)
    requires
        pos <= data@.len(),
    ensures
        match parse_uuid(data@.skip(pos as int)) {
            Ok((id, n)) => r matches Ok((v, p)) && v == id && p == pos + n,
            Err(e) => r == Err::<(u128, usize), ReadingError>(e),
        },
        r matches Ok((_, p)) ==> pos <= p <= data@.len(),
{
    let (bytes, p) = match read_fixed(data, pos, 16) {
        Ok(x) => x,
        Err(e) => return Err(e),
    };
    let mut v: u128 = 0;
    let mut i: usize = 0;
    while i < 16
        invariant
            bytes@.len() == 16,
            i <= 16,
            v == be_value(bytes@.take(i as int)),
        decreases 16 - i,
    {
        proof {
            lemma_be_value_bound(bytes@.take(i + 1));
            assert(bytes@.take(i + 1).drop_last() =~= bytes@.take(i as int));
            assert(pow256(16) == 0x1_0000_0000_0000_0000_0000_0000_0000_0000) by {
                reveal_with_fuel(pow256, 17);
            }
            lemma_pow256_monotone((i + 1) as nat, 16);
        }
        v = v * 256 + bytes[i] as u128;
        i = i + 1;
    }
    assert(bytes@.take(16) =~= bytes@);
    Ok((v, p))
}

proof fn lemma_pow256_monotone(a: nat, b: nat)
    requires
        a <= b,
    ensures
        pow256(a) <= pow256(b),
    decreases b,
{
    if a < b {
        lemma_pow256_monotone(a, (b - 1) as nat);
    }
}

fn read_optional_string(data: &[u8], pos: usize) -> (r: Result<(Option<String>, usize), ReadingError>)
    requires
        pos <= data@.len(),
    ensures
        match parse_optional_string(data@.skip(pos as int)) {
            Ok((x, n)) => r matches Ok((v, p)) && p == pos + n && match v {
                Some(t) => x == Some(t@),
                None => x is None,
            },
            Err(e) => r == Err::<(Option<String>, usize), ReadingError>(e),
        },
        r matches Ok((_, p)) ==> pos <= p <= data@.len(),
{
    let (present, p1) = match read_bool(data, pos) {
        Ok(x) => x,
        Err(e) => return Err(e),
    };
    if !present {
        return Ok((None, p1));
    }
    assert(data@.skip(p1 as int) =~= data@.skip(pos as int).skip(p1 - pos));
    match read_string(data, p1) {
        Ok((t, p2)) => Ok((Some(t), p2)),
        Err(e) => Err(e),
    }
}

fn read_property(data: &[u8], pos: usize) -> (r: Result<(Property, usize), ReadingError>)
    requires
        pos <= data@.len(),
    ensures
        match parse_property(data@.skip(pos as int)) {
            Ok((x, n)) => r matches Ok((v, p)) && v@ == x && p == pos + n,
            Err(e) => r == Err::<(Property, usize), ReadingError>(e),
        },
        r matches Ok((_, p)) ==> pos <= p <= data@.len(),
{
    let ghost s = data@.skip(pos as int);
    let (name, p1) = match read_string(data, pos) {
        Ok(x) => x,
        Err(e) => return Err(e),
    };
    assert(data@.skip(p1 as int) =~= s.skip(p1 - pos));
    let (value, p2) = match read_string(data, p1) {
        Ok(x) => x,
        Err(e) => return Err(e),
    };
    assert(data@.skip(p2 as int) =~= s.skip(p2 - pos));
    let (signature, p3) = match read_optional_string(data, p2) {
        Ok(x) => x,
        Err(e) => return Err(e),
    };
    Ok((Property { name, value, signature }, p3))
}

fn read_properties(data: &[u8], pos: usize) -> (r: Result<(Vec<Property>, usize), ReadingError>)
    requires
        pos <= data@.len(),
    ensures
        match parse_properties(data@.skip(pos as int)) {
            Ok((x, n)) => r matches Ok((v, p)) && properties_view(v@) == x && p == pos + n,
            Err(e) => r == Err::<(Vec<Property>, usize), ReadingError>(e),
        },
{
    let ghost s = data@.skip(pos as int);
    let ghost whole = parse_properties(s);
    let (count, mut p) = match read_var_int(data, pos) {
        Ok(x) => x,
        Err(e) => return Err(e),
    };
    if count.0 < 0 {
        return Err(ReadingError::TooLarge);
    }
    let count = count.0 as usize;
    let mut props: Vec<Property> = Vec::new();
    let mut i: usize = 0;
    while i < count
        invariant
            pos < p <= data@.len(),
            i <= count,
            s == data@.skip(pos as int),
            whole == parse_properties(s),
            whole == after_prefix(
                properties_view(props@),
                (p - pos) as nat,
                parse_repeat(s.skip((p - pos) as int), (count - i) as nat, property_item()),
            ),
        decreases count - i,
    {
        let ghost c = (p - pos) as nat;
        assert(data@.skip(p as int) =~= s.skip(c as int));
        assert(property_item()(s.skip(c as int)) == parse_property(s.skip(c as int)));
        match read_property(data, p) {
            Ok((x, p2)) => {
                proof {
                    lemma_parse_repeat_step(
                        s,
                        c,
                        (count - i) as nat,
                        properties_view(props@),
                        property_item(),
                    );
                }
                let ghost before = props@;
                props.push(x);
                assert(properties_view(props@) =~= properties_view(before).push(x@));
                p = p2;
            },
            Err(e) => {
                assert(parse_repeat(s.skip(c as int), (count - i) as nat, property_item()) == Err::<
                    (Seq<PropertyModel>, nat),
                    ReadingError,
                >(e));
                return Err(e);
            },
        }
        i = i + 1;
    }
    assert(properties_view(props@) + Seq::<PropertyModel>::empty() =~= properties_view(props@));
    Ok((props, p))
}

/// Reads the forwarded game profile at `data[pos]`: the UUID, the name and
/// the properties. Bytes after the properties are ignored.
pub fn read_game_profile(data: &[u8], pos: usize) -> (r: Result<GameProfile, VineError>)
    requires
        pos <= data@.len(),
    ensures
        match parse_game_profile(data@.skip(pos as int)) {
            Ok(m) => r matches Ok(g) && g@ == m,
            Err(e) => r matches Err(x) && x == e,
        },
{
    let ghost s = data@.skip(pos as int);
    let (id, p1) = match read_uuid(data, pos) {
        Ok(x) => x,
        Err(_) => return Err(VineError::FailedReadProfileUUID),
    };
    assert(data@.skip(p1 as int) =~= s.skip(p1 - pos));
    let (name, p2) = match read_string(data, p1) {
        Ok(x) => x,
        Err(_) => return Err(VineError::FailedReadProfileName),
    };
    assert(data@.skip(p2 as int) =~= s.skip(p2 - pos));
    let (properties, _) = match read_properties(data, p2) {
        Ok(x) => x,
        Err(_) => return Err(VineError::FailedReadProfileProperties),
    };
    Ok(GameProfile { id, name, properties })
}

#[verifier::external_type_specification]
#[verifier::external_body]
pub struct ExBytesMut(bytes::BytesMut);

/// The bytes that a `bytes::BytesMut` holds.
pub uninterp spec fn bytes_mut_contents(b: bytes::BytesMut) -> Seq<u8>;

/// `bytes::BytesMut::with_capacity`: an empty buffer.
#[verifier::external_body]
fn bytes_mut_with_capacity(capacity: usize) -> (b: bytes::BytesMut)
    ensures
        bytes_mut_contents(b) == Seq::<u8>::empty(),
{
    bytes::BytesMut::with_capacity(capacity)
}

/// `bytes::BufMut::put_u8` on a `BytesMut`: appends one byte. The buffer
/// grows as needed; it may not pass `isize::MAX` bytes.
#[verifier::external_body]
fn bytes_mut_put_u8(b: &mut bytes::BytesMut, x: u8)
    requires
        bytes_mut_contents(*old(b)).len() < isize::MAX,
    ensures
        bytes_mut_contents(*final(b)) == bytes_mut_contents(*old(b)).push(x),
{
    bytes::BufMut::put_u8(b, x)
}

/// `bytes::BufMut::put_slice` on a `BytesMut`: appends the bytes. The buffer
/// grows as needed; it may not pass `isize::MAX` bytes.
#[verifier::external_body]
fn bytes_mut_put_slice(b: &mut bytes::BytesMut, s: &[u8])
    requires
        bytes_mut_contents(*old(b)).len() + s@.len() <= isize::MAX,
    ensures
        bytes_mut_contents(*final(b)) == bytes_mut_contents(*old(b)) + s@,
{
    bytes::BufMut::put_slice(b, s)
}

/// `rand::random::<i32>()`: a random query id. Nothing is claimed of it.
#[verifier::external_body]
fn random_message_id() -> i32 {
    rand::random()
}

/// `rand::random::<[u8; 16]>()`: a random challenge. Nothing is claimed of
/// it.
#[verifier::external_body]
fn random_challenge() -> [u8; 16] {
    rand::random()
}

/// The login query that opens Vine forwarding: its id, and its payload, the
/// forwarding version as one byte followed by a fresh challenge.
pub struct VineLoginRequest {
    pub message_id: i32,
    pub payload: bytes::BytesMut,
}

/// Starts Vine forwarding: picks a random query id and a random 16-byte
/// challenge, which the proxy must sign back to guard against replayed
/// replies, records both as awaited, and returns the query to send on
/// `VINE_PLAYER_INFO_CHANNEL`.
pub fn vine_login(state: &mut ForwardingState) -> (r: VineLoginRequest)
    ensures
        final(state).vine_message_id == Some(r.message_id),
        final(state).vine_challenge matches Some(c) && bytes_mut_contents(r.payload) == seq![
            VINE_FORWARDING_VERSION as u8,
        ] + c@,
        final(state).velocity_message_id == old(state).velocity_message_id,
{
    let message_id = random_message_id();
    let challenge = random_challenge();
    let mut buf = bytes_mut_with_capacity(17);
    bytes_mut_put_u8(&mut buf, VINE_FORWARDING_VERSION as u8);
    bytes_mut_put_slice(&mut buf, challenge.as_slice());
    proof {
        assert(seq![VINE_FORWARDING_VERSION as u8] =~= Seq::<u8>::empty().push(VINE_FORWARDING_VERSION as u8));
    }
    state.vine_challenge = Some(challenge);
    state.vine_message_id = Some(message_id);
    VineLoginRequest { message_id, payload: buf }
}

} // verus!
