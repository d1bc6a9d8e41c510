//! The mnemonic-level sharing pipeline.
//!
//! A share travels as a text line `"<1-based index> <mnemonic>"`. This module
//! parses and renders those lines, bridges mnemonic entropy to field elements
//! (16-byte entropy in GF(2^128), 32-byte in GF(2^256)), and drives the split
//! and reconstruction of whole phrases. The BIP-39 codec itself is an outside
//! collaborator, reached through trusted wrappers; everything around it is
//! verified.

use vstd::prelude::*;

use crate::field::GF128;
use crate::field::GF256;
use crate::field::Field;
use crate::field::bytes_of_limbs;
use crate::field::limbs_of_bytes;
use crate::lagrange::Index;
use crate::lagrange::Sharing;
use crate::lagrange::sp_eval;
use crate::lagrange::sp_interpolate;
use crate::lagrange::split;
use crate::lagrange::reconstruct;

verus! {

/// Why a sharing operation was refused. Every failure of the pipeline is one
/// of these; the front end prefixes the message with `error:` and exits.
#[derive(Clone, Copy, Debug, PartialEq, Eq, Structural)]
pub enum ShareError {
    /// The threshold and count do not satisfy `1 <= threshold <= count`.
    InvalidArguments,
    /// A share line has no space separator, a non-numeric index, or an index
    /// below 1.
    MalformedShareLine,
    /// The BIP-39 codec rejected a word list or its checksum.
    InvalidMnemonic,
    /// Submitted shares decode to entropies of different lengths.
    InconsistentShareSizes,
    /// An entropy length this pipeline does not support.
    UnsupportedEntropySize,
    /// Reading from the input stream failed.
    IoFailure,
}

impl ShareError {
    /// A one-line description of the failure.
    pub fn message(&self) -> (r: &'static str)
        ensures
            self is InvalidArguments ==> r@ == "threshold and count must satisfy 1 <= threshold <= count"@,
            self is MalformedShareLine ==> r@ == "invalid share format"@,
            self is InvalidMnemonic ==> r@ == "invalid mnemonic"@,
            self is InconsistentShareSizes ==> r@ == "seed phrases have inconsistent sizes"@,
            self is UnsupportedEntropySize ==> r@ == "unsupported seed length"@,
            self is IoFailure ==> r@ == "failed to read input"@,
    {
        match self {
            ShareError::InvalidArguments => "threshold and count must satisfy 1 <= threshold <= count",
            ShareError::MalformedShareLine => "invalid share format",
            ShareError::InvalidMnemonic => "invalid mnemonic",
            ShareError::InconsistentShareSizes => "seed phrases have inconsistent sizes",
            ShareError::UnsupportedEntropySize => "unsupported seed length",
            ShareError::IoFailure => "failed to read input",
        }
    }
}

/// The entropy a mnemonic line encodes, if the BIP-39 codec accepts it: a
/// pure function of the text. `None` where the codec rejects the line.
pub uninterp spec fn phrase_entropy(line: Seq<u8>) -> Option<Seq<u8>>;

/// The mnemonic text that encodes the given entropy: words joined by single
/// spaces, a pure function of the entropy bytes.
pub uninterp spec fn entropy_phrase(entropy: Seq<u8>) -> Seq<u8>;

/// Relies on bip39's `Mnemonic::parse` and `Mnemonic::to_entropy`: parsing
/// splits the text on whitespace, looks each word up in the English list and
/// checks the checksum, and `to_entropy` returns the entropy the words
/// encode. Both are pure functions of the input text.
#[verifier::external_body]
fn parse_mnemonic(line: &[u8]) -> (r: Result<Vec<u8>, ShareError>)
    ensures
        match r {
            Ok(v) => phrase_entropy(line@) == Some(v@),
            Err(e) => phrase_entropy(line@) is None && e == ShareError::InvalidMnemonic,
        },
{
    let s = match core::str::from_utf8(line) {
        Ok(s) => s,
        Err(_) => return Err(ShareError::InvalidMnemonic),
    };
    match bip39::Mnemonic::parse(s) {
        Ok(m) => Ok(m.to_entropy()),
        Err(_) => Err(ShareError::InvalidMnemonic),
    }
}

/// Relies on bip39's `Mnemonic::from_entropy` and its `Display`: for 16- or
/// 32-byte entropy the codec accepts the bytes, and the display form is the
/// words joined by single spaces, a pure function of the entropy.
#[verifier::external_body]
fn encode_mnemonic(entropy: &[u8]) -> (r: Vec<u8>)
    requires
        entropy@.len() == 16 || entropy@.len() == 32,
    ensures
        r@ == entropy_phrase(entropy@),
{
    let m = bip39::Mnemonic::from_entropy(entropy).expect("the caller checks the entropy width");
    format!("{}", m).into_bytes()
}

/// The ASCII decimal digits of `v`, most significant first, no leading zeros.
pub open spec fn dec_of(v: u8) -> Seq<u8> {
    if v >= 100 {
        seq![
            (48 + v as int / 100) as u8,
            (48 + (v as int / 10) % 10) as u8,
            (48 + v as int % 10) as u8,
        ]
    } else if v >= 10 {
        seq![(48 + v as int / 10) as u8, (48 + v as int % 10) as u8]
    } else {
        seq![(48 + v as int) as u8]
    }
}

/// Render an index as ASCII decimal.
pub fn render_index(v: u8) -> (r: Vec<u8>)
    ensures
        r@ == dec_of(v),
{
    let mut out: Vec<u8> = Vec::new();
    if v >= 100 {
        out.push(48 + v / 100);
        out.push(48 + (v / 10) % 10);
        out.push(48 + v % 10);
    } else if v >= 10 {
        out.push(48 + v / 10);
        out.push(48 + v % 10);
    } else {
        out.push(48 + v);
    }
    proof {
        assert(out@ =~= dec_of(v));
    }
    out
}

/// An ASCII decimal digit.
pub open spec fn is_digit(c: u8) -> bool {
    48 <= c <= 57
}

/// Every byte of the sequence is an ASCII decimal digit.
pub open spec fn all_digits(s: Seq<u8>) -> bool {
    forall|i: int| 0 <= i < s.len() ==> is_digit(#[trigger] s[i])
}

/// The numeric value of an ASCII decimal digit string, most significant
/// digit first.
pub open spec fn digits_value(s: Seq<u8>) -> int
    decreases s.len(),
{
    if s.len() == 0 {
        0
    } else {
        digits_value(s.drop_last()) * 10 + (s.last() - 48)
    }
}

/// The position of the first space at or after `i`, or -1 if there is none.
pub open spec fn find_space(line: Seq<u8>, i: nat) -> int
    decreases line.len() - i,
{
    if i >= line.len() {
        -1
    } else if line[i as int] == 32 {
        i as int
    } else {
        find_space(line, i + 1)
    }
}

/// What parsing a share line yields: the text before the first space must be
/// a decimal index between 1 and 255; the result pairs the zero-based index
/// with the rest of the line. `None` where the line is malformed.
pub open spec fn parse_share_line_spec(line: Seq<u8>) -> Option<(u8, Seq<u8>)> {
    let sp = find_space(line, 0);
    if sp < 0 {
        Option::None
    } else {
        let pre = line.subrange(0, sp);
        let rest = line.subrange(sp + 1, line.len() as int);
        if pre.len() >= 1 && all_digits(pre) && 1 <= digits_value(pre) <= 255 {
            Option::Some(((digits_value(pre) - 1) as u8, rest))
        } else {
            Option::None
        }
    }
}

/// With digits everywhere from position `k` on, the value of the whole digit
/// string is at least the value of its length-`k` prefix.
proof fn lemma_digits_value_monotonic(s: Seq<u8>, k: int)
    requires
        0 <= k <= s.len(),
        forall|i: int| k <= i < s.len() ==> is_digit(#[trigger] s[i]),
        digits_value(s.subrange(0, k)) >= 0,
    ensures
        digits_value(s) >= digits_value(s.subrange(0, k)),
    decreases s.len() - k,
{
    if k == s.len() {
        assert(s.subrange(0, k) =~= s);
    } else {
        assert(s.subrange(0, k + 1).drop_last() =~= s.subrange(0, k));
        assert(s.subrange(0, k + 1).last() == s[k]);
        assert(digits_value(s.subrange(0, k + 1)) == digits_value(s.subrange(0, k)) * 10 + (s[k]
            - 48));
        lemma_digits_value_monotonic(s, k + 1);
    }
}

/// Parse a share line into its zero-based index and the mnemonic text after
/// the first space.
pub fn parse_share_line(line: &[u8]) -> (r: Result<(u8, Vec<u8>), ShareError>)
    ensures
        match r {
            Ok(p) => parse_share_line_spec(line@) == Some((p.0, p.1@)),
            Err(e) => parse_share_line_spec(line@) is None && e == ShareError::MalformedShareLine,
        },
{
    let n = line.len();
    let mut sp: usize = 0;
    while sp < n && line[sp] != 32
        invariant
            sp <= n,
            n == line@.len(),
            find_space(line@, 0) == find_space(line@, sp as nat),
        decreases n - sp,
    {
        sp += 1;
    }
    if sp == n {
        return Err(ShareError::MalformedShareLine);
    }
    proof {
        assert(find_space(line@, 0) == sp as int);
    }
    if sp == 0 {
        return Err(ShareError::MalformedShareLine);
    }
    let ghost pre = line@.subrange(0, sp as int);
    let mut value: u32 = 0;
    let mut k: usize = 0;
    while k < sp
        invariant
            k <= sp,
            0 < sp < n,
            n == line@.len(),
            find_space(line@, 0) == sp as int,
            pre == line@.subrange(0, sp as int),
            value <= 255,
            value == digits_value(pre.subrange(0, k as int)),
            forall|i: int| 0 <= i < k ==> is_digit(#[trigger] pre[i]),
        decreases sp - k,
    {
        let c = line[k];
        proof {
            assert(pre[k as int] == line@[k as int]);
        }
        if c < 48 || c > 57 {
            proof {
                assert(!is_digit(pre[k as int]));
                assert(!all_digits(pre));
            }
            return Err(ShareError::MalformedShareLine);
        }
        proof {
            assert(pre.subrange(0, k as int + 1).drop_last() =~= pre.subrange(0, k as int));
            assert(pre.subrange(0, k as int + 1).last() == pre[k as int]);
        }
        value = value * 10 + (c - 48) as u32;
        if value > 255 {
            proof {
                assert(value == digits_value(pre.subrange(0, k as int + 1)));
                if all_digits(pre) {
                    lemma_digits_value_monotonic(pre, k as int + 1);
                    assert(digits_value(pre) > 255);
                }
            }
            return Err(ShareError::MalformedShareLine);
        }
        k += 1;
    }
    proof {
        assert(pre.subrange(0, sp as int) =~= pre);
        assert(all_digits(pre));
    }
    if value < 1 {
        return Err(ShareError::MalformedShareLine);
    }
    let mut rest: Vec<u8> = Vec::new();
    let mut t: usize = sp + 1;
    while t < n
        invariant
            sp + 1 <= t <= n,
            n == line@.len(),
            rest@ =~= line@.subrange(sp as int + 1, t as int),
        decreases n - t,
    {
        rest.push(line[t]);
        t += 1;
    }
    proof {
        assert(rest@ =~= line@.subrange(sp as int + 1, n as int));
    }
    Ok(((value - 1) as u8, rest))
}

/// `e` padded on the right with zero bytes to length `n`.
pub open spec fn spad(e: Seq<u8>, n: nat) -> Seq<u8> {
    Seq::new(n, |i: int| if i < e.len() { e[i] } else { 0u8 })
}

/// Pad entropy on the right with zero bytes to 16 bytes.
fn pad16(e: &Vec<u8>) -> (r: [u8; 16])
    requires
        e@.len() <= 16,
    ensures
        r@ == spad(e@, 16),
{
    let mut out = [0u8; 16];
    proof {
        assert(out == vstd::array::spec_array_fill_for_copy_type::<u8, 16>(0u8));
        assert(forall|j: int|
            0 <= j < 16 ==> vstd::array::spec_array_fill_for_copy_type::<u8, 16>(0u8)@[j] == 0u8);
    }
    let mut i: usize = 0;
    while i < e.len()
        invariant
            i <= e@.len() <= 16,
            out@.len() == 16,
            forall|j: int| 0 <= j < i ==> out@[j] == e@[j],
            forall|j: int| i <= j < 16 ==> out@[j] == 0u8,
        decreases e@.len() - i,
    {
        out[i] = e[i];
        i += 1;
    }
    proof {
        assert(out@ =~= spad(e@, 16));
    }
    out
}

/// Copy a 32-byte entropy vector into an array.
fn to_array32(e: &Vec<u8>) -> (r: [u8; 32])
    requires
        e@.len() == 32,
    ensures
        r@ == e@,
{
    let mut out = [0u8; 32];
    let mut i: usize = 0;
    while i < 32
        invariant
            i <= 32,
            e@.len() == 32,
            out@.len() == 32,
            forall|j: int| 0 <= j < i ==> out@[j] == e@[j],
        decreases 32 - i,
    {
        out[i] = e[i];
        i += 1;
    }
    proof {
        assert(out@ =~= e@);
    }
    out
}

/// Decode one share line: its zero-based index and its entropy, or the first
/// error: the line format is checked before the mnemonic.
pub open spec fn decode_share(line: Seq<u8>) -> Result<(u8, Seq<u8>), ShareError> {
    match parse_share_line_spec(line) {
        Option::None => Err(ShareError::MalformedShareLine),
        Option::Some(p) => match phrase_entropy(p.1) {
            Option::None => Err(ShareError::InvalidMnemonic),
            Option::Some(e) => Ok((p.0, e)),
        },
    }
}

/// Decode a list of share lines in order; the first failing line decides the
/// error.
pub open spec fn decode_shares(lines: Seq<Seq<u8>>) -> Result<Seq<(u8, Seq<u8>)>, ShareError>
    decreases lines.len(),
{
    if lines.len() == 0 {
        Ok(Seq::empty())
    } else {
        match decode_shares(lines.drop_last()) {
            Err(e) => Err(e),
            Ok(pre) => match decode_share(lines.last()) {
                Err(e) => Err(e),
                Ok(s) => Ok(pre.push(s)),
            },
        }
    }
}

/// Once a prefix of the lines fails to decode, the whole list fails with the
/// same error.
proof fn lemma_decode_error_prefix(lines: Seq<Seq<u8>>, k: int, e: ShareError)
    requires
        0 < k <= lines.len(),
        decode_shares(lines.subrange(0, k)) == Err::<Seq<(u8, Seq<u8>)>, ShareError>(e),
    ensures
        decode_shares(lines) == Err::<Seq<(u8, Seq<u8>)>, ShareError>(e),
    decreases lines.len() - k,
{
    if k == lines.len() {
        assert(lines.subrange(0, k) =~= lines);
    } else {
        assert(lines.subrange(0, k + 1).drop_last() =~= lines.subrange(0, k));
        lemma_decode_error_prefix(lines, k + 1, e);
    }
}

/// All decoded shares carry entropy of the same length as the first.
pub open spec fn sizes_consistent(shares: Seq<(u8, Seq<u8>)>) -> bool {
    forall|j: int| 0 <= j < shares.len() ==> (#[trigger] shares[j]).1.len() == shares[0].1.len()
}

/// The limbs reconstructed over GF(2^128) from decoded shares, each entropy
/// padded to 16 bytes.
pub open spec fn sp_combined128(shares: Seq<(u8, Seq<u8>)>) -> Seq<u64> {
    sp_interpolate::<GF128>(
        shares.map_values(|s: (u8, Seq<u8>)| GF128::sp_from_u64((s.0 + 1) as u64)),
        shares.map_values(|s: (u8, Seq<u8>)| limbs_of_bytes(spad(s.1, 16))),
        shares.len(),
    )
}

/// The limbs reconstructed over GF(2^256) from decoded shares of 32-byte
/// entropy.
pub open spec fn sp_combined256(shares: Seq<(u8, Seq<u8>)>) -> Seq<u64> {
    sp_interpolate::<GF256>(
        shares.map_values(|s: (u8, Seq<u8>)| GF256::sp_from_u64((s.0 + 1) as u64)),
        shares.map_values(|s: (u8, Seq<u8>)| limbs_of_bytes(s.1)),
        shares.len(),
    )
}

/// What combining a list of share lines yields: the mnemonic of the secret
/// interpolated from the decoded shares, or the first error. Entropies of at
/// most 16 bytes are padded to 16 and combined in GF(2^128), 32-byte
/// entropies in GF(2^256); other lengths are refused.
pub open spec fn combine_spec(lines: Seq<Seq<u8>>) -> Result<Seq<u8>, ShareError> {
    if lines.len() == 0 {
        Err(ShareError::InvalidArguments)
    } else {
        match decode_shares(lines) {
            Err(e) => Err(e),
            Ok(shares) => if !sizes_consistent(shares) {
                Err(ShareError::InconsistentShareSizes)
            } else if shares[0].1.len() <= 16 {
                Ok(entropy_phrase(bytes_of_limbs(sp_combined128(shares))))
            } else if shares[0].1.len() == 32 {
                Ok(entropy_phrase(bytes_of_limbs(sp_combined256(shares))))
            } else {
                Err(ShareError::UnsupportedEntropySize)
            },
        }
    }
}

/// Combine share lines into the mnemonic of the reconstructed secret.
///
/// With fewer lines than the threshold used at split time the result is a
/// well-formed mnemonic of a value that is almost surely not the secret;
/// this function cannot detect that condition.
pub fn combine_lines(lines: &Vec<Vec<u8>>) -> (r: Result<Vec<u8>, ShareError>)
    ensures
        match r {
            Ok(v) => combine_spec(lines.deep_view()) == Ok::<Seq<u8>, ShareError>(v@),
            Err(e) => combine_spec(lines.deep_view()) == Err::<Seq<u8>, ShareError>(e),
        },
{
    let ghost lv = lines.deep_view();
    let n = lines.len();
    proof {
        assert(lv.len() == n as int);
    }
    if n == 0 {
        return Err(ShareError::InvalidArguments);
    }
    let mut decoded: Vec<(u8, Vec<u8>)> = Vec::new();
    let ghost mut gshares: Seq<(u8, Seq<u8>)> = Seq::empty();
    let mut j: usize = 0;
    while j < n
        invariant
            j <= n,
            n >= 1,
            n == lines@.len(),
            lv == lines.deep_view(),
            lv.len() == n as int,
            decode_shares(lv.subrange(0, j as int)) == Ok::<Seq<(u8, Seq<u8>)>, ShareError>(
                gshares,
            ),
            gshares.len() == j as int,
            decoded@.len() == j as int,
            forall|t: int|
                0 <= t < j as int ==> #[trigger] gshares[t] == (decoded@[t].0, decoded@[t].1@),
        decreases n - j,
    {
        proof {
            assert(lv[j as int] == lines@[j as int].deep_view());
            assert(lv[j as int] =~= lines@[j as int]@);
            assert(lv.subrange(0, j as int + 1).drop_last() =~= lv.subrange(0, j as int));
            assert(lv.subrange(0, j as int + 1).last() == lv[j as int]);
        }
        let idx_words = match parse_share_line(lines[j].as_slice()) {
            Ok(p) => p,
            Err(_) => {
                proof {
                    assert(decode_share(lv[j as int]) == Err::<(u8, Seq<u8>), ShareError>(
                        ShareError::MalformedShareLine,
                    ));
                    assert(decode_shares(lv.subrange(0, j as int + 1)) == Err::<
                        Seq<(u8, Seq<u8>)>,
                        ShareError,
                    >(ShareError::MalformedShareLine));
                    lemma_decode_error_prefix(lv, j as int + 1, ShareError::MalformedShareLine);
                }
                return Err(ShareError::MalformedShareLine);
            },
        };
        let entropy = match parse_mnemonic(idx_words.1.as_slice()) {
            Ok(v) => v,
            Err(_) => {
                proof {
                    assert(decode_share(lv[j as int]) == Err::<(u8, Seq<u8>), ShareError>(
                        ShareError::InvalidMnemonic,
                    ));
                    assert(decode_shares(lv.subrange(0, j as int + 1)) == Err::<
                        Seq<(u8, Seq<u8>)>,
                        ShareError,
                    >(ShareError::InvalidMnemonic));
                    lemma_decode_error_prefix(lv, j as int + 1, ShareError::InvalidMnemonic);
                }
                return Err(ShareError::InvalidMnemonic);
            },
        };
        proof {
            assert(decode_share(lv[j as int]) == Ok::<(u8, Seq<u8>), ShareError>(
                (idx_words.0, entropy@),
            ));
            gshares = gshares.push((idx_words.0, entropy@));
        }
        decoded.push((idx_words.0, entropy));
        j += 1;
    }
    proof {
        assert(lv.subrange(0, n as int) =~= lv);
    }
    let size = decoded[0].1.len();
    let mut j: usize = 1;
    while j < n
        invariant
            1 <= j <= n,
            n >= 1,
            lv == lines.deep_view(),
            lv.len() == n as int,
            decode_shares(lv) == Ok::<Seq<(u8, Seq<u8>)>, ShareError>(gshares),
            decoded@.len() == n as int,
            gshares.len() == n as int,
            size == decoded@[0].1@.len(),
            forall|t: int|
                0 <= t < n as int ==> #[trigger] gshares[t] == (decoded@[t].0, decoded@[t].1@),
            forall|t: int| 0 <= t < j as int ==> (#[trigger] decoded@[t]).1@.len() == size as int,
        decreases n - j,
    {
        if decoded[j].1.len() != size {
            proof {
                assert(gshares[j as int].1.len() != gshares[0].1.len());
                assert(!sizes_consistent(gshares));
            }
            return Err(ShareError::InconsistentShareSizes);
        }
        j += 1;
    }
    proof {
        assert(sizes_consistent(gshares));
    }
    if size <= 16 {
        let mut fshares: Vec<(Index, GF128)> = Vec::new();
        let mut j: usize = 0;
        while j < n
            invariant
                j <= n,
                decoded@.len() == n as int,
                gshares.len() == n as int,
                forall|t: int|
                    0 <= t < n as int ==> #[trigger] gshares[t] == (decoded@[t].0, decoded@[t].1@),
                forall|t: int| 0 <= t < n as int ==> (#[trigger] decoded@[t]).1@.len() <= 16,
                fshares@.len() == j as int,
                forall|t: int|
                    0 <= t < j as int ==> (#[trigger] fshares@[t]).0 == (Index(decoded@[t].0))
                        && fshares@[t].1@ == limbs_of_bytes(spad(decoded@[t].1@, 16)),
            decreases n - j,
        {
            let idx = decoded[j].0;
            let data = pad16(&decoded[j].1);
            fshares.push((Index(idx), GF128::from_bytes(data)));
            j += 1;
        }
        let secret = reconstruct(fshares.as_slice());
        proof {
            assert(crate::lagrange::sp_points_of::<GF128>(fshares@) =~= gshares.map_values(
                |s: (u8, Seq<u8>)| GF128::sp_from_u64((s.0 + 1) as u64),
            ));
            assert(crate::lagrange::sp_heights_of::<GF128>(fshares@) =~= gshares.map_values(
                |s: (u8, Seq<u8>)| limbs_of_bytes(spad(s.1, 16)),
            ));
            assert(secret@ == sp_combined128(gshares));
        }
        let bytes = secret.to_bytes();
        let out = encode_mnemonic(bytes.as_slice());
        Ok(out)
    } else if size == 32 {
        let mut fshares: Vec<(Index, GF256)> = Vec::new();
        let mut j: usize = 0;
        while j < n
            invariant
                j <= n,
                decoded@.len() == n as int,
                gshares.len() == n as int,
                forall|t: int|
                    0 <= t < n as int ==> #[trigger] gshares[t] == (decoded@[t].0, decoded@[t].1@),
                forall|t: int| 0 <= t < n as int ==> (#[trigger] decoded@[t]).1@.len() == 32,
                fshares@.len() == j as int,
                forall|t: int|
                    0 <= t < j as int ==> (#[trigger] fshares@[t]).0 == (Index(decoded@[t].0))
                        && fshares@[t].1@ == limbs_of_bytes(decoded@[t].1@),
            decreases n - j,
        {
            let idx = decoded[j].0;
            let data = to_array32(&decoded[j].1);
            fshares.push((Index(idx), GF256::from_bytes(data)));
            j += 1;
        }
        let secret = reconstruct(fshares.as_slice());
        proof {
            assert(crate::lagrange::sp_points_of::<GF256>(fshares@) =~= gshares.map_values(
                |s: (u8, Seq<u8>)| GF256::sp_from_u64((s.0 + 1) as u64),
            ));
            assert(crate::lagrange::sp_heights_of::<GF256>(fshares@) =~= gshares.map_values(
                |s: (u8, Seq<u8>)| limbs_of_bytes(s.1),
            ));
            assert(secret@ == sp_combined256(gshares));
        }
        let bytes = secret.to_bytes();
        let out = encode_mnemonic(bytes.as_slice());
        Ok(out)
    } else {
        Err(ShareError::UnsupportedEntropySize)
    }
}

/// The error `split_phrase` returns, if any: the arguments are checked first,
/// then the mnemonic, then the entropy width. Entropy of at most 16 bytes is
/// split in GF(2^128) after zero-padding, 32-byte entropy in GF(2^256);
/// other widths are refused.
pub open spec fn split_error(line: Seq<u8>, threshold: u8, count: u8) -> Option<ShareError> {
    if !(1 <= threshold <= count) {
        Some(ShareError::InvalidArguments)
    } else {
        match phrase_entropy(line) {
            Option::None => Some(ShareError::InvalidMnemonic),
            Option::Some(e) => if e.len() <= 16 || e.len() == 32 {
                Option::None
            } else {
                Some(ShareError::UnsupportedEntropySize)
            },
        }
    }
}

/// The text of the share with zero-based index `i` and evaluation bytes
/// `eb`: the 1-based decimal index, one space, and the mnemonic of `eb`.
pub open spec fn share_line_of(i: int, eb: Seq<u8>) -> Seq<u8> {
    dec_of((i + 1) as u8) + seq![32u8] + entropy_phrase(eb)
}

/// Split a mnemonic into `count` share lines, any `threshold` of which
/// recombine to it. Each run draws fresh random polynomial coefficients, so
/// the contract promises their existence: some coefficient sequence starting
/// at the secret entropy yields every returned line.
pub fn split_phrase(line: &[u8], threshold: u8, count: u8) -> (r: Result<Vec<Vec<u8>>, ShareError>)
    ensures
        match r {
            Err(e) => split_error(line@, threshold, count) == Some(e),
            Ok(outs) => split_error(line@, threshold, count) is None && outs@.len()
                == count as int && (exists|c: Seq<Seq<u64>>|
                #![auto]
                c.len() == threshold as int && (phrase_entropy(line@)->0.len() <= 16 ==> c[0]
                    == limbs_of_bytes(spad(phrase_entropy(line@)->0, 16)) && (forall|i: int|
                    0 <= i < outs@.len() ==> outs@[i]@ == share_line_of(
                        i,
                        bytes_of_limbs(sp_eval::<GF128>(c, GF128::sp_from_u64((i + 1) as u64))),
                    ))) && (phrase_entropy(line@)->0.len() == 32 ==> c[0] == limbs_of_bytes(
                    phrase_entropy(line@)->0,
                ) && (forall|i: int|
                    0 <= i < outs@.len() ==> outs@[i]@ == share_line_of(
                        i,
                        bytes_of_limbs(sp_eval::<GF256>(c, GF256::sp_from_u64((i + 1) as u64))),
                    )))),
        },
{
    if !(1 <= threshold && threshold <= count) {
        return Err(ShareError::InvalidArguments);
    }
    let entropy = match parse_mnemonic(line) {
        Ok(v) => v,
        Err(e) => {
            return Err(e);
        },
    };
    if entropy.len() <= 16 {
        let data = pad16(&entropy);
        let secret = GF128::from_bytes(data);
        let shares = split(secret, Sharing::new(threshold, count));
        let ghost c = choose|c: Seq<Seq<u64>>|
            c.len() == threshold as int && c[0] == secret@ && (forall|i: int|
                0 <= i < shares@.len() ==> (#[trigger] shares@[i]).1@ == sp_eval::<GF128>(
                    c,
                    GF128::sp_from_u64((i + 1) as u64),
                ));
        let mut outs: Vec<Vec<u8>> = Vec::new();
        let mut i: usize = 0;
        while i < shares.len()
            invariant
                i <= shares@.len(),
                shares@.len() == count as int,
                count >= 1,
                outs@.len() == i as int,
                forall|t: int|
                    0 <= t < shares@.len() ==> (#[trigger] shares@[t]).1@ == sp_eval::<GF128>(
                        c,
                        GF128::sp_from_u64((t + 1) as u64),
                    ),
                forall|t: int|
                    0 <= t < i as int ==> (#[trigger] outs@[t])@ == share_line_of(
                        t,
                        bytes_of_limbs(sp_eval::<GF128>(c, GF128::sp_from_u64((t + 1) as u64))),
                    ),
            decreases shares@.len() - i,
        {
            let mut lb = render_index((i + 1) as u8);
            lb.push(32);
            let sbytes = shares[i].1.to_bytes();
            let mut phrase = encode_mnemonic(sbytes.as_slice());
            lb.append(&mut phrase);
            outs.push(lb);
            i += 1;
        }
        Ok(outs)
    } else if entropy.len() == 32 {
        let data = to_array32(&entropy);
        let secret = GF256::from_bytes(data);
        let shares = split(secret, Sharing::new(threshold, count));
        let ghost c = choose|c: Seq<Seq<u64>>|
            c.len() == threshold as int && c[0] == secret@ && (forall|i: int|
                0 <= i < shares@.len() ==> (#[trigger] shares@[i]).1@ == sp_eval::<GF256>(
                    c,
                    GF256::sp_from_u64((i + 1) as u64),
                ));
        let mut outs: Vec<Vec<u8>> = Vec::new();
        let mut i: usize = 0;
        while i < shares.len()
            invariant
                i <= shares@.len(),
                shares@.len() == count as int,
                count >= 1,
                outs@.len() == i as int,
                forall|t: int|
                    0 <= t < shares@.len() ==> (#[trigger] shares@[t]).1@ == sp_eval::<GF256>(
                        c,
                        GF256::sp_from_u64((t + 1) as u64),
                    ),
                forall|t: int|
                    0 <= t < i as int ==> (#[trigger] outs@[t])@ == share_line_of(
                        t,
                        bytes_of_limbs(sp_eval::<GF256>(c, GF256::sp_from_u64((t + 1) as u64))),
                    ),
            decreases shares@.len() - i,
        {
            let mut lb = render_index((i + 1) as u8);
            lb.push(32);
            let sbytes = shares[i].1.to_bytes();
            let mut phrase = encode_mnemonic(sbytes.as_slice());
            lb.append(&mut phrase);
            outs.push(lb);
            i += 1;
        }
        Ok(outs)
    } else {
        Err(ShareError::UnsupportedEntropySize)
    }
}

/// A freshly generated mnemonic of 16 bytes of entropy from the secure
/// randomness source.
pub fn random_phrase() -> (r: Vec<u8>)
    ensures
        exists|e: Seq<u8>| e.len() == 16 && r@ == entropy_phrase(e),
{
    let secret = GF128::random();
    let bytes = secret.to_bytes();
    let out = encode_mnemonic(bytes.as_slice());
    proof {
        assert(bytes@.len() == 16 && out@ == entropy_phrase(bytes@));
    }
    out
}

} // verus!

