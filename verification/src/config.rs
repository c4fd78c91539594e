//! The scan policy: which roots to walk, which exact paths to skip, and the
//! per-installation secret that keys the content hash; plus the parser for
//! the plain-text policy source and the sealed persistence of the record.

use vstd::prelude::*;
use crate::codec::{
    dec_config, enc_config, encode_bstr_into, encode_bstrs_into, read_bstr, read_bstrs,
};
use crate::crypto::{
    chacha_seal, envelope_body, envelope_nonce, envelope_valid, read_decrypted, save_encrypted,
    spec_advance, spec_envelope, spec_key_fit, spec_nonce_bytes, CryptoError, SEAL_MAX_LEN,
};

verus! {

/// Which collection a parsed policy line belongs to.
#[derive(Clone, Copy, Debug, PartialEq, Eq, Structural)]
pub enum ActionType {
    /// The entry names a root to scan.
    Scan,
    /// The entry names an exact path to ignore.
    Ignore,
}

/// The scan policy: an ordered sequence of scan roots, a set of exact paths
/// to ignore, and 192 bytes of random material keying the content hash.
pub struct Config {
    /// Random material generated at policy creation, keying the content hash.
    pub secret: Vec<u8>,
    /// Root paths to walk, in order; duplicates are permitted and walked
    /// again.
    pub scans: Vec<Vec<u8>>,
    /// Exact paths to skip when encountered.
    pub ignores: Vec<Vec<u8>>,
}

/// Relies on rand's `Rng::fill_bytes` on the thread-local cryptographic
/// generator: it fills the whole buffer; nothing is assumed about the
/// drawn values.
#[verifier::external_body]
fn random_bytes(n: usize) -> (r: Vec<u8>)
    ensures
        r@.len() == n,
{
    let mut b = vec![0u8; n];
    rand::Rng::fill_bytes(&mut rand::rng(), &mut b);
    b
}

impl Config {
    /// Well-formed: the secret has the length the keyed hash expects.
    pub open spec fn wf(&self) -> bool {
        self.secret@.len() == 192
    }

    /// A policy with no roots, no ignores, and a fresh random secret.
    pub fn new() -> (c: Config)
        ensures
            c.wf(),
            c.scans@.len() == 0,
            c.ignores@.len() == 0,
    {
        let mut c = Config { secret: Vec::new(), scans: Vec::new(), ignores: Vec::new() };
        c.gen_new_secret();
        c
    }

    /// Replaces the hashing secret with fresh random material; roots and
    /// ignores are kept.
    pub fn gen_new_secret(&mut self)
        ensures
            final(self).wf(),
            final(self).scans == old(self).scans,
            final(self).ignores == old(self).ignores,
    {
        self.secret = random_bytes(192);
    }
}

/// Encodes a policy record deterministically.
pub fn encode_config(c: &Config) -> (r: Vec<u8>)
    ensures
        r@ == enc_config(c.secret@, c.scans.deep_view(), c.ignores.deep_view()),
{
    let mut out: Vec<u8> = Vec::new();
    encode_bstr_into(&mut out, &c.secret);
    encode_bstrs_into(&mut out, &c.scans);
    encode_bstrs_into(&mut out, &c.ignores);
    proof {
        assert(out@ =~= enc_config(c.secret@, c.scans.deep_view(), c.ignores.deep_view()));
    }
    out
}

/// Decodes a policy record; the secret must have its fixed length and
/// trailing bytes are refused.
pub fn decode_config(data: &Vec<u8>) -> (r: Option<Config>)
    ensures
        dec_config(data@) matches Some(t) ==> (r matches Some(c) && c.wf() && c.secret@ == t.0
            && c.scans.deep_view() == t.1 && c.ignores.deep_view() == t.2),
        dec_config(data@) is None ==> r is None,
{
    proof {
        assert(data@.skip(0) =~= data@);
    }
    let (secret, j0) = match read_bstr(data, 0) {
        Some(v) => v,
        None => return None,
    };
    if secret.len() != 192 {
        return None;
    }
    let (scans, j1) = match read_bstrs(data, j0) {
        Some(v) => v,
        None => return None,
    };
    let (ignores, j2) = match read_bstrs(data, j1) {
        Some(v) => v,
        None => return None,
    };
    if j2 != data.len() {
        proof {
            assert(data@.skip(j2 as int).len() != 0);
        }
        return None;
    }
    proof {
        assert(data@.skip(j2 as int).len() == 0);
    }
    Some(Config { secret, scans, ignores })
}

// ---------------------------------------------------------------------------
// The plain-text policy source
// ---------------------------------------------------------------------------

/// Whether a byte sequence starts with a one-byte whitespace character:
/// tab, line feed, vertical tab, form feed, carriage return, or space.
pub open spec fn ws1(s: Seq<u8>) -> bool {
    s.len() >= 1 && (s[0] == 0x09 || s[0] == 0x0a || s[0] == 0x0b || s[0] == 0x0c || s[0] == 0x0d
        || s[0] == 0x20)
}

/// Whether a byte sequence starts with a two-byte whitespace character:
/// the UTF-8 forms of next line (U+0085) and no-break space (U+00A0).
pub open spec fn ws2(s: Seq<u8>) -> bool {
    s.len() >= 2 && s[0] == 0xc2 && (s[1] == 0x85 || s[1] == 0xa0)
}

/// Whether a byte sequence starts with a three-byte whitespace character:
/// the UTF-8 forms of ogham space mark (U+1680), the typographic spaces
/// U+2000 through U+200A, line and paragraph separator (U+2028, U+2029),
/// narrow no-break space (U+202F), medium mathematical space (U+205F), and
/// ideographic space (U+3000).
pub open spec fn ws3(s: Seq<u8>) -> bool {
    s.len() >= 3 && ((s[0] == 0xe1 && s[1] == 0x9a && s[2] == 0x80) || (s[0] == 0xe2 && s[1]
        == 0x80 && (0x80 <= s[2] <= 0x8a || s[2] == 0xa8 || s[2] == 0xa9 || s[2] == 0xaf)) || (
    s[0] == 0xe2 && s[1] == 0x81 && s[2] == 0x9f) || (s[0] == 0xe3 && s[1] == 0x80 && s[2]
        == 0x80))
}

/// The length of a line's leading whitespace, counted in bytes over the
/// UTF-8 forms of the whitespace characters; the blank-line and comment
/// tests look past exactly this prefix.
pub open spec fn first_non_ws(l: Seq<u8>) -> int
    decreases l.len(),
{
    if ws1(l) {
        1 + first_non_ws(l.skip(1))
    } else if ws2(l) {
        2 + first_non_ws(l.skip(2))
    } else if ws3(l) {
        3 + first_non_ws(l.skip(3))
    } else {
        0
    }
}

/// The literal header line that switches entries to the scan roots.
pub open spec fn hdr_scan_upper() -> Seq<u8> {
    seq![0x5bu8, 0x53u8, 0x43u8, 0x41u8, 0x4eu8, 0x5du8, 0x0au8]
}

/// The lower-case form of the scan header.
pub open spec fn hdr_scan_lower() -> Seq<u8> {
    seq![0x5bu8, 0x73u8, 0x63u8, 0x61u8, 0x6eu8, 0x5du8, 0x0au8]
}

/// The literal header line that switches entries to the ignore set.
pub open spec fn hdr_ignore_upper() -> Seq<u8> {
    seq![0x5bu8, 0x49u8, 0x47u8, 0x4eu8, 0x4fu8, 0x52u8, 0x45u8, 0x5du8, 0x0au8]
}

/// The lower-case form of the ignore header.
pub open spec fn hdr_ignore_lower() -> Seq<u8> {
    seq![0x5bu8, 0x69u8, 0x67u8, 0x6eu8, 0x6fu8, 0x72u8, 0x65u8, 0x5du8, 0x0au8]
}

/// A line that contributes nothing: every byte whitespace, or the first
/// non-whitespace byte a `#`.
pub open spec fn line_skipped(l: Seq<u8>) -> bool {
    first_non_ws(l) == l.len() || l[first_non_ws(l)] == 0x23
}

/// An entry line's contribution: the line with its terminator stripped and
/// nothing else normalized.
pub open spec fn entry_content(l: Seq<u8>) -> Seq<u8> {
    if l.len() > 0 && l.last() == 0x0a {
        l.drop_last()
    } else {
        l
    }
}

/// Folds one line into the parser state: mode, scan roots, ignores.
pub open spec fn apply_line(
    l: Seq<u8>,
    mode: ActionType,
    scans: Seq<Seq<u8>>,
    ignores: Seq<Seq<u8>>,
) -> (ActionType, Seq<Seq<u8>>, Seq<Seq<u8>>) {
    if line_skipped(l) {
        (mode, scans, ignores)
    } else if l == hdr_scan_upper() || l == hdr_scan_lower() {
        (ActionType::Scan, scans, ignores)
    } else if l == hdr_ignore_upper() || l == hdr_ignore_lower() {
        (ActionType::Ignore, scans, ignores)
    } else if mode == ActionType::Scan {
        (mode, scans.push(entry_content(l)), ignores)
    } else {
        (mode, scans, ignores.push(entry_content(l)))
    }
}

/// Folds the policy source byte by byte: each newline closes the current
/// line (terminator included); a last line without a terminator still
/// counts.
pub open spec fn parse_cfg(
    s: Seq<u8>,
    cur: Seq<u8>,
    mode: ActionType,
    scans: Seq<Seq<u8>>,
    ignores: Seq<Seq<u8>>,
) -> (Seq<Seq<u8>>, Seq<Seq<u8>>)
    decreases s.len(),
{
    if s.len() == 0 {
        if cur.len() == 0 {
            (scans, ignores)
        } else {
            let t = apply_line(cur, mode, scans, ignores);
            (t.1, t.2)
        }
    } else if s[0] == 0x0a {
        let t = apply_line(cur.push(0x0a), mode, scans, ignores);
        parse_cfg(s.drop_first(), Seq::empty(), t.0, t.1, t.2)
    } else {
        parse_cfg(s.drop_first(), cur.push(s[0]), mode, scans, ignores)
    }
}

/// What parsing a whole policy source yields, from the initial state:
/// scan mode active, nothing collected.
pub open spec fn parsed_policy(s: Seq<u8>) -> (Seq<Seq<u8>>, Seq<Seq<u8>>) {
    parse_cfg(s, Seq::empty(), ActionType::Scan, Seq::empty(), Seq::empty())
}

/// Finds where a line's leading whitespace ends.
fn find_first_non_ws(l: &Vec<u8>) -> (r: usize)
    ensures
        r == first_non_ws(l@),
        r <= l@.len(),
{
    let mut i: usize = 0;
    proof {
        assert(l@.skip(0) =~= l@);
    }
    while i < l.len()
        invariant
            0 <= i <= l@.len(),
            first_non_ws(l@) == first_non_ws(l@.skip(i as int)) + i,
        decreases l@.len() - i,
    {
        let b = l[i];
        proof {
            assert(l@.skip(i as int)[0] == l@[i as int]);
            if i + 1 < l@.len() {
                assert(l@.skip(i as int)[1] == l@[i + 1]);
            }
            if i + 2 < l@.len() {
                assert(l@.skip(i as int)[2] == l@[i + 2]);
            }
        }
        if b == 0x09 || b == 0x0a || b == 0x0b || b == 0x0c || b == 0x0d || b == 0x20 {
            proof {
                assert(l@.skip(i as int).skip(1) =~= l@.skip(i + 1));
            }
            i += 1;
        } else if b == 0xc2 && l.len() - i > 1 && (l[i + 1] == 0x85 || l[i + 1] == 0xa0) {
            proof {
                assert(ws2(l@.skip(i as int)));
                assert(l@.skip(i as int).skip(2) =~= l@.skip(i + 2));
            }
            i += 2;
        } else if l.len() - i > 2 && ((b == 0xe1 && l[i + 1] == 0x9a && l[i + 2] == 0x80) || (b
            == 0xe2 && l[i + 1] == 0x80 && (0x80 <= l[i + 2] && l[i + 2] <= 0x8a || l[i + 2]
            == 0xa8 || l[i + 2] == 0xa9 || l[i + 2] == 0xaf)) || (b == 0xe2 && l[i + 1] == 0x81
            && l[i + 2] == 0x9f) || (b == 0xe3 && l[i + 1] == 0x80 && l[i + 2] == 0x80)) {
            proof {
                assert(ws3(l@.skip(i as int)));
                assert(l@.skip(i as int).skip(3) =~= l@.skip(i + 3));
            }
            i += 3;
        } else {
            proof {
                assert(!ws1(l@.skip(i as int)));
                assert(!ws2(l@.skip(i as int)));
                assert(!ws3(l@.skip(i as int)));
                assert(first_non_ws(l@.skip(i as int)) == 0);
            }
            return i;
        }
    }
    proof {
        assert(l@.skip(i as int).len() == 0);
    }
    i
}

/// Tests a line against the two scan header spellings.
fn is_scan_header(l: &Vec<u8>) -> (r: bool)
    ensures
        r == (l@ == hdr_scan_upper() || l@ == hdr_scan_lower()),
{
    if l.len() != 7 {
        return false;
    }
    let upper = l[0] == 0x5b && l[1] == 0x53 && l[2] == 0x43 && l[3] == 0x41 && l[4] == 0x4e
        && l[5] == 0x5d && l[6] == 0x0a;
    let lower = l[0] == 0x5b && l[1] == 0x73 && l[2] == 0x63 && l[3] == 0x61 && l[4] == 0x6e
        && l[5] == 0x5d && l[6] == 0x0a;
    proof {
        if upper {
            assert(l@ =~= hdr_scan_upper());
        }
        if lower {
            assert(l@ =~= hdr_scan_lower());
        }
    }
    upper || lower
}

/// Tests a line against the two ignore header spellings.
fn is_ignore_header(l: &Vec<u8>) -> (r: bool)
    ensures
        r == (l@ == hdr_ignore_upper() || l@ == hdr_ignore_lower()),
{
    if l.len() != 9 {
        return false;
    }
    let upper = l[0] == 0x5b && l[1] == 0x49 && l[2] == 0x47 && l[3] == 0x4e && l[4] == 0x4f
        && l[5] == 0x52 && l[6] == 0x45 && l[7] == 0x5d && l[8] == 0x0a;
    let lower = l[0] == 0x5b && l[1] == 0x69 && l[2] == 0x67 && l[3] == 0x6e && l[4] == 0x6f
        && l[5] == 0x72 && l[6] == 0x65 && l[7] == 0x5d && l[8] == 0x0a;
    proof {
        if upper {
            assert(l@ =~= hdr_ignore_upper());
        }
        if lower {
            assert(l@ =~= hdr_ignore_lower());
        }
    }
    upper || lower
}

/// Folds one finished line into the parser state.
fn fold_line(
    cur: Vec<u8>,
    mode: &mut ActionType,
    scans: &mut Vec<Vec<u8>>,
    ignores: &mut Vec<Vec<u8>>,
)
    ensures
        ({
            let t = apply_line(
                cur@,
                *old(mode),
                old(scans).deep_view(),
                old(ignores).deep_view(),
            );
            &&& *final(mode) == t.0
            &&& final(scans).deep_view() == t.1
            &&& final(ignores).deep_view() == t.2
        }),
{
    let mut cur = cur;
    let fnw = find_first_non_ws(&cur);
    if fnw == cur.len() {
        return ;
    }
    if cur[fnw] == 0x23 {
        return ;
    }
    if is_scan_header(&cur) {
        *mode = ActionType::Scan;
        return ;
    }
    if is_ignore_header(&cur) {
        *mode = ActionType::Ignore;
        return ;
    }
    let ghost line = cur@;
    if cur.len() > 0 && cur[cur.len() - 1] == 0x0a {
        cur.truncate(cur.len() - 1);
        proof {
            assert(cur@ =~= entry_content(line));
        }
    }
    if matches!(*mode, ActionType::Scan) {
        let ghost dv = scans.deep_view();
        scans.push(cur);
        proof {
            assert(scans.deep_view() =~~= dv.push(entry_content(line)));
        }
    } else {
        let ghost dv = ignores.deep_view();
        ignores.push(cur);
        proof {
            assert(ignores.deep_view() =~~= dv.push(entry_content(line)));
        }
    }
}

/// Parses a plain-text policy source into its scan roots and its ignore
/// set: blank and comment lines contribute nothing, section headers switch
/// the active collection, every other line contributes one entry with its
/// terminator stripped. No line is ever an error.
pub fn parse_config(text: &Vec<u8>) -> (r: (Vec<Vec<u8>>, Vec<Vec<u8>>))
    ensures
        r.0.deep_view() == parsed_policy(text@).0,
        r.1.deep_view() == parsed_policy(text@).1,
{
    let mut cur: Vec<u8> = Vec::new();
    let mut mode = ActionType::Scan;
    let mut scans: Vec<Vec<u8>> = Vec::new();
    let mut ignores: Vec<Vec<u8>> = Vec::new();
    let mut i: usize = 0;
    proof {
        assert(text@.skip(0) =~= text@);
        assert(cur@ =~= Seq::<u8>::empty());
        assert(scans.deep_view() =~~= Seq::<Seq<u8>>::empty());
        assert(ignores.deep_view() =~~= Seq::<Seq<u8>>::empty());
    }
    while i < text.len()
        invariant
            0 <= i <= text@.len(),
            parsed_policy(text@) == parse_cfg(
                text@.skip(i as int),
                cur@,
                mode,
                scans.deep_view(),
                ignores.deep_view(),
            ),
        decreases text@.len() - i,
    {
        let b = text[i];
        proof {
            assert(text@.skip(i as int)[0] == text@[i as int]);
            assert(text@.skip(i as int).drop_first() =~= text@.skip(i + 1));
        }
        if b == 0x0a {
            cur.push(0x0a);
            fold_line(cur, &mut mode, &mut scans, &mut ignores);
            cur = Vec::new();
        } else {
            cur.push(b);
        }
        i += 1;
    }
    proof {
        assert(text@.skip(i as int).len() == 0);
    }
    if cur.len() > 0 {
        fold_line(cur, &mut mode, &mut scans, &mut ignores);
    }
    (scans, ignores)
}

// ---------------------------------------------------------------------------
// Sealed persistence of the policy
// ---------------------------------------------------------------------------

/// Parses a plain-text policy source, gives it a fresh random secret, and
/// seals the record for the target path, whose current content (if the
/// target exists) is handed in for nonce recovery.
pub fn gen_config(source: &Vec<u8>, existing: Option<&Vec<u8>>, passphrase: &Vec<u8>) -> (r:
    Result<Vec<u8>, CryptoError>)
    requires
        passphrase@.len() > 0,
    ensures
        existing is None ==> (r matches Ok(out) ==> exists|secret: Seq<u8>|
            secret.len() == 192 && out@ == spec_envelope(
                spec_key_fit(passphrase@),
                1,
                enc_config(secret, parsed_policy(source@).0, parsed_policy(source@).1),
            )),
        existing matches Some(d) ==> (r matches Ok(out) ==> d@.len() >= 16 && envelope_valid(
            spec_key_fit(passphrase@),
            d@,
        ) && exists|secret: Seq<u8>|
            secret.len() == 192 && out@ == spec_envelope(
                spec_key_fit(passphrase@),
                spec_advance(envelope_nonce(d@)),
                enc_config(secret, parsed_policy(source@).0, parsed_policy(source@).1),
            )),
        existing matches Some(d) ==> ((d@.len() < 16 || !envelope_valid(
            spec_key_fit(passphrase@),
            d@,
        )) ==> r == Err::<Vec<u8>, CryptoError>(CryptoError::CannotGetNonceFromExistingFile)),
        existing is None ==> (r matches Err(e) ==> e == CryptoError::CouldNotEncrypt),
        existing matches Some(d) ==> ((d@.len() >= 16 && envelope_valid(
            spec_key_fit(passphrase@),
            d@,
        )) ==> r != Err::<Vec<u8>, CryptoError>(CryptoError::CannotGetNonceFromExistingFile)),
        r matches Err(e) ==> (e == CryptoError::CouldNotEncrypt ==> exists|secret: Seq<u8>|
            secret.len() == 192 && enc_config(
                secret,
                parsed_policy(source@).0,
                parsed_policy(source@).1,
            ).len() > SEAL_MAX_LEN),
        r matches Err(e) ==> e == CryptoError::CannotGetNonceFromExistingFile || e
            == CryptoError::CouldNotEncrypt,
{
    let (scans, ignores) = parse_config(source);
    let mut config = Config::new();
    config.scans = scans;
    config.ignores = ignores;
    let plain = encode_config(&config);
    proof {
        assert(config.secret@.len() == 192 && plain@ == enc_config(
            config.secret@,
            parsed_policy(source@).0,
            parsed_policy(source@).1,
        ));
    }
    match save_encrypted(&plain, existing, passphrase) {
        Ok(out) => Ok(out),
        Err(e) => {
            proof {
                if e == CryptoError::CouldNotEncrypt {
                    assert(enc_config(
                        config.secret@,
                        parsed_policy(source@).0,
                        parsed_policy(source@).1,
                    ).len() > SEAL_MAX_LEN);
                }
            }
            Err(e)
        },
    }
}

/// Envelope round trip for policy records: the file that sealing an
/// encoded policy under a key and nonce counter writes parses back to the
/// same counter and sealed body, and the encoded record decodes to the
/// same secret, roots and ignores. Together with the opening contract
/// this pins `open(save(config)) == config` for every policy and
/// passphrase.
pub proof fn lemma_config_record_round_trip(
    key: Seq<u8>,
    n: u128,
    secret: Seq<u8>,
    scans: Seq<Seq<u8>>,
    ignores: Seq<Seq<u8>>,
)
    requires
        secret.len() == 192,
        crate::codec::bstrs_fit(scans),
        crate::codec::bstrs_fit(ignores),
    ensures
        ({
            let plain = enc_config(secret, scans, ignores);
            let file = spec_envelope(key, n, plain);
            &&& file.len() >= 16
            &&& envelope_nonce(file) == n
            &&& envelope_body(file) == chacha_seal(key, spec_nonce_bytes(n), plain)
            &&& dec_config(plain) == Some((secret, scans, ignores))
        }),
{
    crate::crypto::lemma_envelope_parse(key, n, enc_config(secret, scans, ignores));
    crate::codec::lemma_config_roundtrip(secret, scans, ignores);
}

/// Opens a sealed policy record and decodes it.
pub fn get_config(data: &Vec<u8>, passphrase: &Vec<u8>) -> (r: Result<Config, CryptoError>)
    requires
        passphrase@.len() > 0,
    ensures
        data@.len() < 16 <==> r == Err::<Config, CryptoError>(CryptoError::EncryptedDataTooShort),
        r matches Ok(c) ==> c.wf(),
        forall|plain: Seq<u8>|
            (data@.len() >= 16 && envelope_body(data@) == chacha_seal(
                spec_key_fit(passphrase@),
                spec_nonce_bytes(envelope_nonce(data@)),
                plain,
            )) ==> ({
                &&& (dec_config(plain) matches Some(t) ==> (r matches Ok(c) && c.secret@ == t.0
                    && c.scans.deep_view() == t.1 && c.ignores.deep_view() == t.2))
                &&& (dec_config(plain) is None ==> r == Err::<Config, CryptoError>(
                    CryptoError::DecodeError,
                ))
            }),
        r matches Err(e) ==> e == CryptoError::EncryptedDataTooShort || e
            == CryptoError::WrongPassphrase || e == CryptoError::DecodeError,
        r is Ok ==> data@.len() >= 16 && exists|plain: Seq<u8>|
            envelope_body(data@) == chacha_seal(
                spec_key_fit(passphrase@),
                spec_nonce_bytes(envelope_nonce(data@)),
                plain,
            ) && dec_config(plain) is Some,
{
    let plain = match read_decrypted(data, passphrase) {
        Ok(p) => p,
        Err(e) => return Err(e),
    };
    match decode_config(&plain) {
        Some(c) => {
            proof {
                assert(envelope_body(data@) == chacha_seal(
                    spec_key_fit(passphrase@),
                    spec_nonce_bytes(envelope_nonce(data@)),
                    plain@,
                ) && dec_config(plain@) is Some);
            }
            Ok(c)
        },
        None => Err(CryptoError::DecodeError),
    }
}

} // verus!
