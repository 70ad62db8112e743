//! Request-signing helpers: the signing-key derivation chain over
//! HMAC-SHA-256, the credential scope line, and the body-hash check.
//!
//! Timestamps arrive as plain calendar fields; the fixed-width decimal
//! rendering is computed and verified here.

use vstd::prelude::*;

use crate::data::{fb32_eq, HashVal};
use crate::digest::{hmac_sha256, hmac_sha256_of, sha256, sha256_of};
use crate::error::Error;

verus! {

/// A UTC timestamp as plain calendar fields.
#[derive(Clone, Copy, Debug, PartialEq, Eq)]
pub struct DateTime {
    pub year: u32,
    pub month: u32,
    pub day: u32,
    pub hour: u32,
    pub minute: u32,
    pub second: u32,
}

/// Mathematical image of a timestamp.
#[verifier::ext_equal]
pub ghost struct DateTimeV {
    pub year: u32,
    pub month: u32,
    pub day: u32,
    pub hour: u32,
    pub minute: u32,
    pub second: u32,
}

impl View for DateTime {
    type V = DateTimeV;

    open spec fn view(&self) -> DateTimeV {
        DateTimeV {
            year: self.year,
            month: self.month,
            day: self.day,
            hour: self.hour,
            minute: self.minute,
            second: self.second,
        }
    }
}

/// The ASCII digit of a value's ones place.
pub open spec fn dec_digit(v: int) -> u8 {
    (48 + v % 10) as u8
}

/// Four decimal digits, zero-padded.
pub open spec fn digits4(v: int) -> Seq<u8> {
    seq![dec_digit(v / 1000), dec_digit(v / 100), dec_digit(v / 10), dec_digit(v)]
}

/// Two decimal digits, zero-padded.
pub open spec fn digits2(v: int) -> Seq<u8> {
    seq![dec_digit(v / 10), dec_digit(v)]
}

/// The date as `yyyymmdd`.
pub open spec fn short_date_v(d: DateTimeV) -> Seq<u8> {
    digits4(d.year as int) + digits2(d.month as int) + digits2(d.day as int)
}

/// The timestamp as `yyyymmddThhmmssZ`.
pub open spec fn long_datetime_v(d: DateTimeV) -> Seq<u8> {
    short_date_v(d) + seq![84u8] + digits2(d.hour as int) + digits2(d.minute as int) + digits2(
        d.second as int,
    ) + seq![90u8]
}

/// The terminal scope label.
pub open spec fn aws4_request_v() -> Seq<u8> {
    seq![97u8, 119u8, 115u8, 52u8, 95u8, 114u8, 101u8, 113u8, 117u8, 101u8, 115u8, 116u8]
}

/// The key prefix of the derivation chain.
pub open spec fn aws4_prefix(secret: Seq<u8>) -> Seq<u8> {
    seq![65u8, 87u8, 83u8, 52u8] + secret
}

/// The credential scope: date, region, service, and the terminal
/// label, separated by slashes.
pub open spec fn scope_v(d: DateTimeV, region: Seq<u8>, service: Seq<u8>) -> Seq<u8> {
    short_date_v(d) + seq![47u8] + region + seq![47u8] + service + seq![47u8] + aws4_request_v()
}

/// The derived signing key: four chained HMAC-SHA-256 steps over the
/// prefixed secret, the date, the region, the service, and the
/// terminal label.
pub open spec fn signing_key_v(d: DateTimeV, secret: Seq<u8>, region: Seq<u8>, service: Seq<u8>) -> Seq<
    u8,
> {
    hmac_sha256_of(
        hmac_sha256_of(
            hmac_sha256_of(hmac_sha256_of(aws4_prefix(secret), short_date_v(d)), region),
            service,
        ),
        aws4_request_v(),
    )
}

/// Appends one ASCII digit.
fn push_digit(out: &mut Vec<u8>, v: u32)
    ensures
        final(out)@ == old(out)@.push(dec_digit(v as int)),
{
    out.push(48 + (v % 10) as u8);
}

/// Renders the date as `yyyymmdd`.
pub fn format_short_date(d: &DateTime) -> (r: Vec<u8>)
    ensures
        r@ == short_date_v(d@),
{
    let mut out: Vec<u8> = Vec::new();
    push_digit(&mut out, d.year / 1000);
    push_digit(&mut out, d.year / 100);
    push_digit(&mut out, d.year / 10);
    push_digit(&mut out, d.year);
    push_digit(&mut out, d.month / 10);
    push_digit(&mut out, d.month);
    push_digit(&mut out, d.day / 10);
    push_digit(&mut out, d.day);
    proof {
        assert((d.year / 1000) as int % 10 == (d.year as int / 1000) % 10);
        assert(out@ =~= short_date_v(d@));
    }
    out
}

/// Renders the timestamp as `yyyymmddThhmmssZ`.
pub fn format_long_datetime(d: &DateTime) -> (r: Vec<u8>)
    ensures
        r@ == long_datetime_v(d@),
{
    let mut out = format_short_date(d);
    out.push(84u8);
    push_digit(&mut out, d.hour / 10);
    push_digit(&mut out, d.hour);
    push_digit(&mut out, d.minute / 10);
    push_digit(&mut out, d.minute);
    push_digit(&mut out, d.second / 10);
    push_digit(&mut out, d.second);
    out.push(90u8);
    proof {
        assert(out@ =~= long_datetime_v(d@));
    }
    out
}

/// Appends all bytes of a string.
fn push_all(out: &mut Vec<u8>, b: &Vec<u8>)
    ensures
        final(out)@ == old(out)@ + b@,
{
    let ghost base = out@;
    let mut i: usize = 0;
    while i < b.len()
        invariant
            i <= b@.len(),
            out@ =~= base + b@.subrange(0, i as int),
        decreases b@.len() - i,
    {
        out.push(b[i]);
        proof {
            assert(base + b@.subrange(0, i + 1) =~= (base + b@.subrange(0, i as int)).push(
                b@[i as int],
            ));
        }
        i = i + 1;
    }
    proof {
        assert(b@.subrange(0, b@.len() as int) =~= b@);
    }
}

/// Appends the terminal scope label.
fn push_aws4_request(out: &mut Vec<u8>)
    ensures
        final(out)@ == old(out)@ + aws4_request_v(),
{
    out.push(97u8);
    out.push(119u8);
    out.push(115u8);
    out.push(52u8);
    out.push(95u8);
    out.push(114u8);
    out.push(101u8);
    out.push(113u8);
    out.push(117u8);
    out.push(101u8);
    out.push(115u8);
    out.push(116u8);
    proof {
        assert(out@ =~= old(out)@ + aws4_request_v());
    }
}

/// Builds the credential scope line.
pub fn compute_scope(d: &DateTime, region: &Vec<u8>, service: &Vec<u8>) -> (r: Vec<u8>)
    ensures
        r@ == scope_v(d@, region@, service@),
{
    let mut out = format_short_date(d);
    out.push(47u8);
    push_all(&mut out, region);
    out.push(47u8);
    push_all(&mut out, service);
    out.push(47u8);
    push_aws4_request(&mut out);
    proof {
        assert(out@ =~= scope_v(d@, region@, service@));
    }
    out
}

/// Derives the request-signing key for a date, region, and service.
pub fn signing_hmac(d: &DateTime, secret_key: &Vec<u8>, region: &Vec<u8>, service: &Vec<u8>) -> (r:
    HashVal)
    ensures
        r@ == signing_key_v(d@, secret_key@, region@, service@),
{
    let mut secret: Vec<u8> = Vec::new();
    secret.push(65u8);
    secret.push(87u8);
    secret.push(83u8);
    secret.push(52u8);
    push_all(&mut secret, secret_key);
    proof {
        assert(secret@ =~= aws4_prefix(secret_key@));
    }
    let date8 = format_short_date(d);
    let date_hmac = hmac_sha256(secret.as_slice(), date8.as_slice());
    let region_hmac = hmac_sha256(date_hmac.b.as_slice(), region.as_slice());
    let service_hmac = hmac_sha256(region_hmac.b.as_slice(), service.as_slice());
    let mut label: Vec<u8> = Vec::new();
    push_aws4_request(&mut label);
    proof {
        assert(label@ =~= aws4_request_v());
    }
    hmac_sha256(service_hmac.b.as_slice(), label.as_slice())
}

/// Checks a request body against the content hash its signature
/// promised.
pub fn verify_signed_content(expected_sha256: &HashVal, body: &[u8]) -> (r: Result<(), Error>)
    ensures
        r is Ok <==> expected_sha256@ == sha256_of(body@),
        r matches Err(e) ==> e is BadRequest,
{
    let h = sha256(body);
    if fb32_eq(expected_sha256, &h) {
        Ok(())
    } else {
        Err(Error::BadRequest("request content hash does not match signed hash".to_owned()))
    }
}

} // verus!
