use crate::challenge::ChallengeStore;
use crate::error::AppError;
use crate::models::{fresh_id, opt_view, Claims, UserAuth, UserInfo};
use crate::text::{
    chars_of, decode_hex_chars, hex_digit, is_hex_digit, is_space, lower_chars,
    space_char, spec_hex_decode, spec_hex_lower, string_from_chars, u64_to_dec, valid_hex,
    ascii_lower_char, dec_str,
};
use vstd::prelude::*;

verus! {

// ---------------------------------------------------------------------------
// Trusted bindings to the chain and token libraries
// ---------------------------------------------------------------------------

/// The EIP-55 mixed-case rendering of a 20-byte account.
pub uninterp spec fn checksum_of(addr: Seq<u8>) -> Seq<char>;

/// Relies on `ethers_core::utils::to_checksum` without a chain prefix: the
/// rendering is a function of the 20 address bytes alone, and by its
/// construction it is `0x` followed by the 40 hexadecimal digits of the
/// address with only letter case varying.
#[verifier::external_body]
fn to_checksum_string(addr: &Vec<u8>) -> (r: String)
    requires
        addr@.len() == 20,
    ensures
        r@ == checksum_of(addr@),
        r@.len() == 42,
        r@[0] == '0',
        r@[1] == 'x',
        forall|i: int|
            0 <= i < 40 ==> ascii_lower_char(#[trigger] r@[i + 2]) == spec_hex_lower(addr@)[i],
{
    let a = ethers_core::types::Address::from_slice(addr.as_slice());
    ethers_core::utils::to_checksum(&a, None)
}

/// What ECDSA public-key recovery yields for a 65-byte signature over a
/// 32-byte digest: a 20-byte account, or nothing for an unusable signature.
pub uninterp spec fn recover_of(sig: Seq<u8>, hash: Seq<u8>) -> Option<Seq<u8>>;

/// Relies on `ethers_core::types::Signature::recover` applied to a
/// precomputed hash: the outcome is a function of the signature and digest
/// bytes alone, and a recovered account is 20 bytes.
#[verifier::external_body]
fn recover_address(sig: &Vec<u8>, hash: &Vec<u8>) -> (r: Option<Vec<u8>>)
    requires
        sig@.len() == 65,
        hash@.len() == 32,
    ensures
        match r {
            Some(a) => recover_of(sig@, hash@) == Some(a@) && a@.len() == 20,
            None => recover_of(sig@, hash@) is None,
        },
{
    let s = match ethers_core::types::Signature::try_from(sig.as_slice()) {
        Ok(s) => s,
        Err(_) => return None,
    };
    let mut h = [0u8; 32];
    h.copy_from_slice(hash.as_slice());
    match s.recover(ethers_core::types::RecoveryMessage::Hash(ethers_core::types::H256(h))) {
        Ok(a) => Some(a.as_bytes().to_vec()),
        Err(_) => None,
    }
}

/// The EIP-191 personal-message digest of a text.
pub uninterp spec fn eth_message_hash(msg: Seq<char>) -> Seq<u8>;

/// Relies on `ethers_core::utils::hash_message`: the digest prefixes the
/// message and hashes it, a function of the message alone; it is 32 bytes.
#[verifier::external_body]
fn hash_message_str(message: &str) -> (r: Vec<u8>)
    ensures
        r@ == eth_message_hash(message@),
        r@.len() == 32,
{
    ethers_core::utils::hash_message(message.as_bytes()).as_bytes().to_vec()
}

/// What parsing the sign-in message grammar yields: the embedded 20-byte
/// account and the embedded nonce, or nothing for unparsable text.
pub uninterp spec fn siwe_parse_of(s: Seq<char>) -> Option<(Seq<u8>, Seq<char>)>;

/// Relies on `siwe::Message`'s `FromStr`: parsing is a function of the text
/// alone; the parsed account field is 20 bytes.
#[verifier::external_body]
fn parse_siwe(message: &str) -> (r: Option<(Vec<u8>, String)>)
    ensures
        match r {
            Some(p) => siwe_parse_of(message@) == Some((p.0@, p.1@)) && p.0@.len() == 20,
            None => siwe_parse_of(message@) is None,
        },
{
    match message.parse::<siwe::Message>() {
        Ok(m) => Some((m.address.to_vec(), m.nonce)),
        Err(_) => None,
    }
}

/// The session token signed over the given claim fields with the given
/// secret.
pub uninterp spec fn jwt_of(
    sub: Seq<char>,
    iat: u64,
    exp: u64,
    ens: Option<Seq<char>>,
    secret: Seq<char>,
) -> Seq<char>;

/// The claim fields a session token yields under a secret: subject,
/// issued-at, expiry and display name, a function of the token text and the
/// secret alone (the validation outcome additionally depends on the clock,
/// and is not named).
pub uninterp spec fn claims_of_token(token: Seq<char>, secret: Seq<char>) -> Option<
    (Seq<char>, u64, u64, Option<Seq<char>>),
>;

/// Relies on `jsonwebtoken::encode` with the default HS256 header: the
/// token is an HMAC-signed rendering of the claim fields, a function of the
/// claims and the secret alone.  Encoding cannot fail: HMAC-SHA256 signing
/// under the pinned crypto backend and serialization of this payload are
/// infallible.  Decoding the produced token under the same secret reads the
/// same fields back.
#[verifier::external_body]
fn encode_claims(claims: &Claims, secret: &str) -> (r: Option<String>)
    ensures
        r is Some,
        r matches Some(t) ==> t@ == jwt_of(
            claims.sub@,
            claims.iat,
            claims.exp,
            opt_view(claims.ens),
            secret@,
        ),
        r matches Some(t) ==> claims_of_token(t@, secret@) == Some(
            (claims.sub@, claims.iat, claims.exp, opt_view(claims.ens)),
        ),
{
    let mut payload = serde_json::Map::new();
    payload.insert("sub".to_string(), serde_json::Value::from(claims.sub.clone()));
    payload.insert("iat".to_string(), serde_json::Value::from(claims.iat));
    payload.insert("exp".to_string(), serde_json::Value::from(claims.exp));
    if let Some(e) = &claims.ens {
        payload.insert("ens".to_string(), serde_json::Value::from(e.clone()));
    }
    jsonwebtoken::encode(
        &jsonwebtoken::Header::default(),
        &serde_json::Value::Object(payload),
        &jsonwebtoken::EncodingKey::from_secret(secret.as_bytes()),
    ).ok()
}

/// Relies on `jsonwebtoken::decode` with the default validation (HS256,
/// expiry checked against the wall clock).  Whether decoding succeeds
/// depends on the current time, so success is never promised; the fields a
/// successful decode yields are the token's claims, a function of the token
/// and the secret alone.  Callers treat any failure as an authentication
/// failure.
#[verifier::external_body]
fn decode_claims(token: &str, secret: &str) -> (r: Option<Claims>)
    ensures
        r matches Some(c) ==> claims_of_token(token@, secret@) == Some(
            (c.sub@, c.iat, c.exp, opt_view(c.ens)),
        ),
{
    let data = jsonwebtoken::decode::<serde_json::Value>(
        token,
        &jsonwebtoken::DecodingKey::from_secret(secret.as_bytes()),
        &jsonwebtoken::Validation::default(),
    ).ok()?;
    let sub = data.claims.get("sub")?.as_str()?.to_string();
    let iat = data.claims.get("iat")?.as_u64()?;
    let exp = data.claims.get("exp")?.as_u64()?;
    let ens = data.claims.get("ens").and_then(|v| v.as_str()).map(|s| s.to_string());
    Some(Claims { sub, exp, iat, ens })
}

// ---------------------------------------------------------------------------
// Address and signature text handling
// ---------------------------------------------------------------------------

/// Leading `0x` markers, repeated, stripped from a signature text.
pub open spec fn strip_0x(s: Seq<char>) -> Seq<char>
    decreases s.len(),
{
    if s.len() >= 2 && s[0] == '0' && s[1] == 'x' {
        strip_0x(s.skip(2))
    } else {
        s
    }
}

/// The signature bytes a hex signature text denotes: after stripping `0x`
/// markers it must be exactly 65 bytes of hexadecimal.
pub open spec fn spec_sig_bytes(s: Seq<char>) -> Option<Seq<u8>> {
    let t = strip_0x(s);
    if valid_hex(t) && spec_hex_decode(t).len() == 65 {
        Some(spec_hex_decode(t))
    } else {
        None
    }
}

/// The text with whitespace removed (the hex reader used for account
/// identifiers skips blanks, tabs and line breaks).
pub open spec fn drop_spaces(s: Seq<char>) -> Seq<char>
    decreases s.len(),
{
    if s.len() == 0 {
        s
    } else if is_space(s.last()) {
        drop_spaces(s.drop_last())
    } else {
        drop_spaces(s.drop_last()).push(s.last())
    }
}

/// The 20 account bytes an address text denotes: an optional single `0x`
/// prefix, then, ignoring whitespace, exactly 40 hexadecimal digits.
pub open spec fn spec_addr_bytes(s: Seq<char>) -> Option<Seq<u8>> {
    let t0 = if s.len() >= 2 && s[0] == '0' && s[1] == 'x' {
        s.skip(2)
    } else {
        s
    };
    let t = drop_spaces(t0);
    if valid_hex(t) && t.len() == 40 {
        Some(spec_hex_decode(t))
    } else {
        None
    }
}

/// Strips repeated leading `0x` markers.
fn strip_0x_chars(v: &Vec<char>) -> (r: Vec<char>)
    ensures
        r@ == strip_0x(v@),
{
    let mut i: usize = 0;
    proof {
        assert(v@.skip(0) =~= v@);
    }
    while v.len() - i >= 2 && v[i] == '0' && v[i + 1] == 'x'
        invariant
            i <= v@.len(),
            strip_0x(v@) == strip_0x(v@.skip(i as int)),
        decreases v@.len() - i,
    {
        proof {
            assert(v@.skip(i as int)[0] == v@[i as int]);
            assert(v@.skip(i as int)[1] == v@[i + 1]);
            assert(v@.skip(i as int).skip(2) =~= v@.skip(i + 2));
        }
        i = i + 2;
    }
    let mut r: Vec<char> = Vec::new();
    let n = v.len();
    let start = i;
    for j in start..n
        invariant
            n == v@.len(),
            start <= j <= n,
            r@ =~= v@.subrange(start as int, j as int),
    {
        r.push(v[j]);
        assert(r@ =~= v@.subrange(start as int, j + 1));
    }
    proof {
        assert(v@.subrange(start as int, n as int) =~= v@.skip(start as int));
        let t = v@.skip(start as int);
        if t.len() >= 2 && t[0] == '0' && t[1] == 'x' {
            assert(v@[start as int] == t[0] && v@[start + 1] == t[1]);
            assert(false);
        }
        assert(strip_0x(t) == t);
    }
    r
}

/// Removes whitespace characters.
fn drop_spaces_chars(v: &Vec<char>) -> (r: Vec<char>)
    ensures
        r@ == drop_spaces(v@),
{
    let mut r: Vec<char> = Vec::new();
    let n = v.len();
    for i in 0..n
        invariant
            n == v@.len(),
            r@ == drop_spaces(v@.take(i as int)),
    {
        proof {
            assert(v@.take(i + 1).drop_last() =~= v@.take(i as int));
            assert(v@.take(i + 1).last() == v@[i as int]);
        }
        if !space_char(v[i]) {
            r.push(v[i]);
        }
    }
    proof {
        assert(v@.take(n as int) =~= v@);
    }
    r
}

/// Parses an account identifier into its 20 bytes; `None` exactly on text
/// that does not denote one.
pub fn parse_eth_address(address: &String) -> (r: Option<Vec<u8>>)
    ensures
        r matches Some(b) ==> spec_addr_bytes(address@) == Some(b@) && b@.len() == 20,
        r is None ==> spec_addr_bytes(address@) is None,
{
    let v = chars_of(address.as_str());
    let stripped: Vec<char> = if v.len() >= 2 && v[0] == '0' && v[1] == 'x' {
        let mut s: Vec<char> = Vec::new();
        let n = v.len();
        for j in 2..n
            invariant
                n == v@.len(),
                2 <= j <= n,
                s@ =~= v@.subrange(2, j as int),
        {
            s.push(v[j]);
            assert(s@ =~= v@.subrange(2, j + 1));
        }
        proof {
            assert(v@.subrange(2, n as int) =~= v@.skip(2));
        }
        s
    } else {
        v
    };
    let t = drop_spaces_chars(&stripped);
    if t.len() != 40 {
        return None;
    }
    match decode_hex_chars(&t) {
        Some(b) => {
            proof {
                assert(b@.len() == 20);
            }
            Some(b)
        },
        None => None,
    }
}

/// Compares two character vectors.
pub fn chars_eq(a: &Vec<char>, b: &Vec<char>) -> (r: bool)
    ensures
        r == (a@ == b@),
{
    if a.len() != b.len() {
        return false;
    }
    let n = a.len();
    for i in 0..n
        invariant
            n == a@.len() == b@.len(),
            forall|j: int| 0 <= j < i ==> a@[j] == b@[j],
    {
        if a[i] != b[i] {
            return false;
        }
    }
    proof {
        assert(a@ =~= b@);
    }
    true
}

/// Two byte sequences with the same lower-case hexadecimal rendering are
/// equal.
pub proof fn lemma_hex_lower_injective(a: Seq<u8>, b: Seq<u8>)
    requires
        spec_hex_lower(a) == spec_hex_lower(b),
    ensures
        a == b,
    decreases a.len(),
{
    crate::text::lemma_hex_lower_len(a);
    crate::text::lemma_hex_lower_len(b);
    if a.len() == 0 {
        assert(a =~= b);
    } else {
        assert(b.len() > 0);
        let ha = spec_hex_lower(a);
        let hb = spec_hex_lower(b);
        let x = a.first();
        let y = b.first();
        assert(ha[0] == hex_alphabet((x >> 4) as int) && ha[1] == hex_alphabet((x & 0x0f) as int));
        assert(hb[0] == hex_alphabet((y >> 4) as int) && hb[1] == hex_alphabet((y & 0x0f) as int));
        assert((x >> 4) < 16 && (x & 0x0f) < 16 && (y >> 4) < 16 && (y & 0x0f) < 16)
            by (bit_vector);
        lemma_hex_alphabet_injective((x >> 4) as int, (y >> 4) as int);
        lemma_hex_alphabet_injective((x & 0x0f) as int, (y & 0x0f) as int);
        assert(x == ((x >> 4) << 4 | (x & 0x0f))) by (bit_vector);
        assert(y == ((y >> 4) << 4 | (y & 0x0f))) by (bit_vector);
        assert(x >> 4 == y >> 4 && (x & 0x0f) == (y & 0x0f));
        assert(x == y);
        assert(spec_hex_lower(a.drop_first()) =~= spec_hex_lower(b.drop_first())) by {
            assert(forall|k: int|
                0 <= k < spec_hex_lower(a.drop_first()).len() ==> spec_hex_lower(a.drop_first())[k]
                    == ha[k + 2] && #[trigger] spec_hex_lower(b.drop_first())[k] == hb[k + 2]);
        }
        lemma_hex_lower_injective(a.drop_first(), b.drop_first());
        assert(a =~= seq![a.first()] + a.drop_first());
        assert(b =~= seq![b.first()] + b.drop_first());
    }
}

/// Index into the lower-case hexadecimal alphabet.
pub open spec fn hex_alphabet(i: int) -> char {
    crate::text::HEX_LOWER@[i]
}

/// Distinct indices of the hexadecimal alphabet are distinct characters.
proof fn lemma_hex_alphabet_injective(x: int, y: int)
    requires
        0 <= x < 16,
        0 <= y < 16,
        hex_alphabet(x) == hex_alphabet(y),
    ensures
        x == y,
{
}

// ---------------------------------------------------------------------------
// Statement normalization
// ---------------------------------------------------------------------------

/// A 42-character account window: `0x` and 40 hexadecimal digits.
pub open spec fn is_addr_window(s: Seq<char>) -> bool {
    s.len() == 42 && s[0] == '0' && s[1] == 'x' && (forall|i: int|
        2 <= i < 42 ==> is_hex_digit(#[trigger] s[i]))
}

/// The statement with every account window rewritten to its mixed-case
/// checksummed form, scanning left to right without overlap.
pub open spec fn normalize_spec(s: Seq<char>) -> Seq<char>
    decreases s.len(),
{
    if s.len() >= 42 && is_addr_window(s.take(42)) {
        checksum_of(spec_hex_decode(s.take(42).skip(2))) + normalize_spec(s.skip(42))
    } else if s.len() > 0 {
        seq![s[0]] + normalize_spec(s.skip(1))
    } else {
        s
    }
}

/// Rewrites every account window from position `i` on.
fn normalize_from(v: &Vec<char>, i: usize) -> (r: Vec<char>)
    requires
        i <= v@.len(),
    ensures
        r@ == normalize_spec(v@.skip(i as int)),
    decreases v@.len() - i,
{
    let ghost s = v@.skip(i as int);
    if i == v.len() {
        let r: Vec<char> = Vec::new();
        proof {
            assert(s =~= Seq::<char>::empty());
        }
        return r;
    }
    let window_head = v.len() - i >= 42 && v[i] == '0' && v[i + 1] == 'x';
    let mut window = window_head;
    if window_head {
        for k in 2..42usize
            invariant
                i + 42 <= v@.len(),
                v@.len() <= usize::MAX,
                v@.skip(i as int) == s,
                window == (forall|j: int| 2 <= j < k ==> is_hex_digit(#[trigger] v@[i + j])),
        {
            if !hex_digit(v[i + k]) {
                window = false;
            } else {
                proof {
                    if window {
                        assert(forall|j: int|
                            2 <= j < k + 1 ==> is_hex_digit(#[trigger] v@[i + j]));
                    }
                }
            }
        }
    }
    proof {
        assert(forall|j: int| 0 <= j < 42 && s.len() >= 42 ==> s.take(42)[j] == v@[i + j]);
    }
    if window {
        proof {
            assert(s.len() >= 42);
            assert(s.take(42)[0] == '0' && s.take(42)[1] == 'x');
            assert(is_addr_window(s.take(42)));
        }
        let mut hexpart: Vec<char> = Vec::new();
        for k in 2..42usize
            invariant
                i + 42 <= v@.len(),
                v@.len() <= usize::MAX,
                v@.skip(i as int) == s,
                hexpart@ =~= s.take(42).subrange(2, k as int),
                forall|j: int| 2 <= j < 42 ==> is_hex_digit(#[trigger] s.take(42)[j]),
        {
            proof {
                assert(s.take(42)[k as int] == v@[i + k]);
            }
            hexpart.push(v[i + k]);
            assert(hexpart@ =~= s.take(42).subrange(2, k + 1));
        }
        proof {
            assert(hexpart@ =~= s.take(42).skip(2));
            assert(hexpart@.len() == 40);
            assert(valid_hex(hexpart@));
        }
        let bytes = match decode_hex_chars(&hexpart) {
            Some(b) => b,
            None => {
                proof {
                    assert(false);
                }
                Vec::new()
            },
        };
        let cs = to_checksum_string(&bytes);
        let mut r = chars_of(cs.as_str());
        let rest = normalize_from(v, i + 42);
        let ghost csv = r@;
        let m = rest.len();
        for k in 0..m
            invariant
                m == rest@.len(),
                r@ =~= csv + rest@.take(k as int),
        {
            r.push(rest[k]);
            assert(r@ =~= csv + rest@.take(k + 1));
        }
        proof {
            assert(rest@.take(m as int) =~= rest@);
            assert(s.skip(42) =~= v@.skip(i + 42));
            assert(r@ =~= normalize_spec(s));
        }
        r
    } else {
        proof {
            if s.len() >= 42 && is_addr_window(s.take(42)) {
                assert(v@[i as int] == s.take(42)[0] && v@[i + 1] == s.take(42)[1]);
                assert(window_head);
                assert(!(forall|j: int| 2 <= j < 42 ==> is_hex_digit(#[trigger] v@[i + j])));
                let j = choose|j: int| 2 <= j < 42 && !is_hex_digit(#[trigger] v@[i + j]);
                assert(s.take(42)[j] == v@[i + j]);
                assert(is_hex_digit(s.take(42)[j]));
                assert(false);
            }
        }
        let mut r = normalize_from(v, i + 1);
        r.insert(0, v[i]);
        proof {
            assert(s.skip(1) =~= v@.skip(i + 1));
            assert(r@ =~= seq![s[0]] + normalize_spec(s.skip(1)));
        }
        r
    }
}

/// Rewrites every embedded account identifier to its canonical mixed-case
/// checksummed form; everything else is kept as it stands.
pub fn normalize_siwe_message(message: &String) -> (r: String)
    ensures
        r@ == normalize_spec(message@),
{
    let v = chars_of(message.as_str());
    let out = normalize_from(&v, 0);
    proof {
        assert(v@.skip(0) =~= v@);
    }
    string_from_chars(&out)
}

// ---------------------------------------------------------------------------
// The two verification schemes
// ---------------------------------------------------------------------------

/// What the two-attempt parse step yields: the original statement's fields,
/// or on an unparsable original the normalized statement's fields.
pub open spec fn spec_parse_phase(s: Seq<char>) -> Option<(Seq<u8>, Seq<char>)> {
    if siwe_parse_of(s) is Some {
        siwe_parse_of(s)
    } else {
        siwe_parse_of(normalize_spec(s))
    }
}

/// Parses a sign-in statement; on failure, rewrites embedded account
/// identifiers to checksummed form and parses once more.  The second
/// failure surfaces as an invalid signature, as the scheme prescribes.
pub fn parse_siwe_message(message: &String) -> (r: Result<(Vec<u8>, String), AppError>)
    ensures
        spec_parse_phase(message@) matches Some(p) ==> (r matches Ok(q) && q.0@ == p.0 && q.1@
            == p.1 && q.0@.len() == 20),
        spec_parse_phase(message@) is None ==> r == Err::<(Vec<u8>, String), AppError>(
            AppError::InvalidSignature,
        ),
{
    match parse_siwe(message.as_str()) {
        Some(p) => Ok(p),
        None => {
            let normalized = normalize_siwe_message(message);
            match parse_siwe(normalized.as_str()) {
                Some(p) => Ok(p),
                None => Err(AppError::InvalidSignature),
            }
        },
    }
}

/// Seconds a session token stays valid.
pub const JWT_TTL_SECONDS: u64 = 86400;

/// The authentication engine: verifies signed challenges and issues and
/// validates session tokens under a server-held secret.
#[derive(Debug)]
pub struct AuthService {
    pub jwt_secret: String,
}

impl AuthService {
    pub fn new(jwt_secret: String) -> (s: Self)
        ensures
            s.jwt_secret == jwt_secret,
    {
        AuthService { jwt_secret }
    }

    /// Issues a fresh random challenge token into the store with a full
    /// time-to-live.
    pub fn generate_nonce(&self, store: &mut ChallengeStore, now: u64) -> (nonce: String)
        requires
            old(store).wf(),
            now + crate::challenge::NONCE_TTL_SECONDS <= u64::MAX,
        ensures
            final(store).wf(),
            final(store)@ == crate::challenge::spec_issue(old(store)@, nonce@, now),
            nonce@.len() == 36,
    {
        let nonce = fresh_id();
        store.issue(nonce.clone(), now);
        nonce
    }

    /// Decides the structured scheme from its three inputs: the statement's
    /// parsed account, whether its embedded nonce consumed, and whether the
    /// signature verified against the statement.  (Parsing is
    /// `parse_siwe_message`; the nonce consume and the signature check are
    /// the caller's, as they are remote or await-bound.)  Enrichment is
    /// best-effort and absent here, recorded as unknown.
    pub fn verify_siwe_message(
        &self,
        parsed_address: &Vec<u8>,
        nonce_consumed: bool,
        signature_valid: bool,
    ) -> (r: Result<UserAuth, AppError>)
        requires
            parsed_address@.len() == 20,
        ensures
            !nonce_consumed ==> r == Err::<UserAuth, AppError>(AppError::InvalidNonce),
            nonce_consumed && !signature_valid ==> r == Err::<UserAuth, AppError>(
                AppError::InvalidSignature,
            ),
            nonce_consumed && signature_valid ==> (r matches Ok(u) && u.address@ == checksum_of(
                parsed_address@,
            ) && u.ens_name is None && u.token_holdings@.len() == 0 && u.nft_holdings@.len()
                == 0),
    {
        if !nonce_consumed {
            return Err(AppError::InvalidNonce);
        }
        if !signature_valid {
            return Err(AppError::InvalidSignature);
        }
        let address = to_checksum_string(parsed_address);
        Ok(UserAuth { address, ens_name: None, token_holdings: Vec::new(), nft_holdings: Vec::new() })
    }

    /// Builds a signed session token: subject is the address, issued now,
    /// expiring one day later, the display name carried along.
    pub fn generate_jwt(&self, user_auth: &UserAuth, now: u64) -> (r: Result<String, AppError>)
        requires
            now + JWT_TTL_SECONDS <= u64::MAX,
        ensures
            r matches Ok(t) && t@ == jwt_of(
                user_auth.address@,
                now,
                (now + JWT_TTL_SECONDS) as u64,
                opt_view(user_auth.ens_name),
                self.jwt_secret@,
            ),
            r matches Ok(t) && claims_of_token(t@, self.jwt_secret@) == Some(
                (
                    user_auth.address@,
                    now,
                    (now + JWT_TTL_SECONDS) as u64,
                    opt_view(user_auth.ens_name),
                ),
            ),
    {
        let claims = Claims {
            sub: user_auth.address.clone(),
            exp: now + JWT_TTL_SECONDS,
            iat: now,
            ens: crate::models::dup_opt_string(&user_auth.ens_name),
        };
        match encode_claims(&claims, self.jwt_secret.as_str()) {
            Some(t) => Ok(t),
            None => {
                proof {
                    assert(false);
                }
                Err(AppError::AuthenticationFailed(String::from_str("token signing failed")))
            },
        }
    }

    /// Validates a session token's signature and expiry; any failure
    /// surfaces as an authentication failure.  Validated claims are the
    /// token's own: verifying an issued, unexpired token under the issuing
    /// secret reads back exactly the fields the token was built from.
    pub fn verify_jwt(&self, token: &String) -> (r: Result<Claims, AppError>)
        ensures
            r matches Err(e) ==> e matches AppError::AuthenticationFailed(_),
            r matches Ok(c) ==> claims_of_token(token@, self.jwt_secret@) == Some(
                (c.sub@, c.iat, c.exp, opt_view(c.ens)),
            ),
    {
        match decode_claims(token.as_str(), self.jwt_secret.as_str()) {
            Some(c) => Ok(c),
            None => Err(AppError::AuthenticationFailed(String::from_str("invalid token"))),
        }
    }

    /// Compares an on-chain balance (queried by the caller) against the
    /// gate's minimum, or against zero when none is set.  The minimum is a
    /// decimal numeral of up to 256 bits, as on-chain quantities are; a
    /// malformed contract address or minimum is rejected.
    pub fn check_token_gate(
        &self,
        contract_address: &String,
        minimum_balance: Option<&String>,
        balance: u128,
    ) -> (r: Result<bool, AppError>)
        ensures
            spec_addr_bytes(contract_address@) is None ==> (r matches Err(e) && e matches
                AppError::InvalidRequest(_)),
            spec_addr_bytes(contract_address@) is Some ==> match minimum_balance {
                Some(m) => {
                    if m@.len() > 0 && crate::text::all_dec_digits(m@) && crate::text::dec_value(
                        m@,
                    ) < crate::blockchain::pow256(32) {
                        r == Ok::<bool, AppError>(balance as nat >= crate::text::dec_value(m@))
                    } else {
                        r matches Err(e) && e matches AppError::InvalidRequest(_)
                    }
                },
                None => r == Ok::<bool, AppError>(balance > 0),
            },
    {
        if parse_eth_address(contract_address).is_none() {
            return Err(AppError::InvalidRequest(String::from_str("invalid contract address")));
        }
        match minimum_balance {
            Some(m) => {
                let digits = chars_of(m.as_str());
                match crate::blockchain::parse_dec_u256(&digits) {
                    Some(v) => Ok(crate::blockchain::balance_reaches(balance, &v)),
                    None => Err(AppError::InvalidRequest(String::from_str("invalid minimum balance"))),
                }
            },
            None => Ok(balance > 0),
        }
    }
}

/// Decides the simple scheme, given whether the out-of-band nonce consumed.
/// The claimed address and the address recovered from the signature over
/// the personal-message hash must denote the same account; the comparison
/// is case-insensitive over their checksummed renderings, which agrees with
/// equality of the underlying account bytes.
pub fn verify_simple_auth(
    nonce_consumed: bool,
    address: &String,
    message: &String,
    signature: &String,
) -> (r: Result<UserAuth, AppError>)
    ensures
        ({
            let sg = spec_sig_bytes(signature@);
            let rec = if sg is Some {
                recover_of(sg.unwrap(), eth_message_hash(message@))
            } else {
                None
            };
            let exp = spec_addr_bytes(address@);
            &&& !nonce_consumed ==> r == Err::<UserAuth, AppError>(AppError::InvalidNonce)
            &&& nonce_consumed && sg is None ==> r == Err::<UserAuth, AppError>(
                AppError::InvalidSignature,
            )
            &&& nonce_consumed && sg is Some && rec is None ==> r == Err::<UserAuth, AppError>(
                AppError::InvalidSignature,
            )
            &&& nonce_consumed && sg is Some && rec is Some && exp is None ==> (r matches Err(e)
                && e matches AppError::InvalidRequest(_))
            &&& nonce_consumed && sg is Some && rec is Some && exp is Some ==> (if rec.unwrap()
                == exp.unwrap() {
                r matches Ok(u) && u.address@ == checksum_of(rec.unwrap()) && u.ens_name is None
                    && u.token_holdings@.len() == 0 && u.nft_holdings@.len() == 0
            } else {
                r == Err::<UserAuth, AppError>(AppError::InvalidSignature)
            })
        }),
{
    if !nonce_consumed {
        return Err(AppError::InvalidNonce);
    }
    let sigchars = chars_of(signature.as_str());
    let stripped = strip_0x_chars(&sigchars);
    let sigbytes = match decode_hex_chars(&stripped) {
        Some(b) => b,
        None => return Err(AppError::InvalidSignature),
    };
    if sigbytes.len() != 65 {
        return Err(AppError::InvalidSignature);
    }
    let hash = hash_message_str(message.as_str());
    let recovered = match recover_address(&sigbytes, &hash) {
        Some(a) => a,
        None => return Err(AppError::InvalidSignature),
    };
    let expected = match parse_eth_address(address) {
        Some(b) => b,
        None => return Err(AppError::InvalidRequest(String::from_str("invalid address"))),
    };
    let rec_cs = to_checksum_string(&recovered);
    let exp_cs = to_checksum_string(&expected);
    let rec_chars = chars_of(rec_cs.as_str());
    let exp_chars = chars_of(exp_cs.as_str());
    let rec_lower = lower_chars(&rec_chars);
    let exp_lower = lower_chars(&exp_chars);
    if chars_eq(&rec_lower, &exp_lower) {
        proof {
            crate::text::lemma_hex_lower_len(recovered@);
            crate::text::lemma_hex_lower_len(expected@);
            assert forall|i: int| 0 <= i < 40 implies spec_hex_lower(recovered@)[i]
                == spec_hex_lower(expected@)[i] by {
                assert(rec_lower@[i + 2] == ascii_lower_char(rec_cs@[i + 2]));
                assert(exp_lower@[i + 2] == ascii_lower_char(exp_cs@[i + 2]));
            }
            assert(spec_hex_lower(recovered@) =~= spec_hex_lower(expected@));
            lemma_hex_lower_injective(recovered@, expected@);
            assert(recovered@ =~= expected@);
        }
        Ok(
            UserAuth {
                address: rec_cs,
                ens_name: None,
                token_holdings: Vec::new(),
                nft_holdings: Vec::new(),
            },
        )
    } else {
        proof {
            if recovered@ == expected@ {
                assert(rec_cs@ == exp_cs@);
                assert(rec_lower@ =~= exp_lower@);
            }
        }
        Err(AppError::InvalidSignature)
    }
}

/// The user record a validated set of claims denotes.
pub fn user_info_of_claims(claims: &Claims) -> (u: UserInfo)
    ensures
        u.address == claims.sub,
        u.ens_name == claims.ens,
        u.avatar is None,
{
    UserInfo {
        address: claims.sub.clone(),
        ens_name: crate::models::dup_opt_string(&claims.ens),
        avatar: None,
    }
}

/// Extracts the user a session token names, if the token validates: the
/// address and display name are the token's own subject and name claims.
pub fn extract_user_from_token(token: &String, jwt_secret: &String) -> (r: Result<
    UserInfo,
    AppError,
>)
    ensures
        r matches Err(e) ==> e matches AppError::AuthenticationFailed(_),
        r matches Ok(u) ==> u.avatar is None && (claims_of_token(token@, jwt_secret@) matches Some(
            t,
        ) && t.0 == u.address@ && t.3 == opt_view(u.ens_name)),
{
    match decode_claims(token.as_str(), jwt_secret.as_str()) {
        Some(c) => Ok(user_info_of_claims(&c)),
        None => Err(AppError::AuthenticationFailed(String::from_str("invalid token"))),
    }
}

/// Renders a sign-in statement for a wallet to sign.
pub fn create_siwe_message(
    address: &String,
    domain: &String,
    nonce: &String,
    chain_id: u64,
    issued_at: &String,
) -> (r: String)
    ensures
        r@ == domain@ + " wants you to sign in with your Ethereum account:\n"@ + address@
            + "\n\nChainTalk Authentication\n\nURI: https://"@ + domain@
            + "\nVersion: 1\nChain ID: "@ + dec_str(chain_id as nat) + "\nNonce: "@ + nonce@
            + "\nIssued At: "@ + issued_at@,
{
    let mut r = domain.clone();
    r.append(" wants you to sign in with your Ethereum account:\n");
    r.append(address.as_str());
    r.append("\n\nChainTalk Authentication\n\nURI: https://");
    r.append(domain.as_str());
    r.append("\nVersion: 1\nChain ID: ");
    let cid = u64_to_dec(chain_id);
    r.append(cid.as_str());
    r.append("\nNonce: ");
    r.append(nonce.as_str());
    r.append("\nIssued At: ");
    r.append(issued_at.as_str());
    r
}

/// Law: when a statement parses only after normalization, the two-attempt
/// parse step works on the normalized statement and on nothing else; the
/// structured scheme can then succeed only through the nonce embedded in,
/// and a signature verified against, that checksummed-equivalent statement.
pub proof fn lemma_structured_scheme_normalization(s: Seq<char>)
    requires
        siwe_parse_of(s) is None,
    ensures
        spec_parse_phase(s) == siwe_parse_of(normalize_spec(s)),
{
}

} // verus!
