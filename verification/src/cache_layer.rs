//! Dual-cache facade for the proxy.
//!
//! A primary sharded cache serves responses; an optional comparison cache
//! runs in shadow mode so hit rates of two policies can be compared on the
//! same access stream. In demo mode both caches are updated and queried (the
//! comparison result is discarded, only its counters matter); in bench mode
//! only the primary is exercised. The facade also carries the Cache-Control
//! parser the proxy uses to decide cacheability and TTL.

use vstd::prelude::*;

use std::sync::Arc;
use vstd::string::StringSliceAdditionalSpecFns;

use crate::fifo::FifoCache;
use crate::lru::LruCache;
use crate::model::PolicyModel;
use crate::sharded::ShardedCache;
use crate::sharded::spec_per_shard;
use crate::sharded::spec_shard_of;
use crate::sharded::sum_cap;
use crate::sharded::sum_evictions;
use crate::sharded::sum_hits;
use crate::sharded::sum_len;
use crate::sharded::sum_misses;
use crate::sieve::SieveCache;
use crate::traits::CachePolicy;
use crate::traits::CacheStats;
use crate::traits::CachedResponse;
use crate::traits::RespView;

verus! {

/// Runtime mode for the dual-cache system: demo updates both caches for a
/// fair hit-rate comparison, bench updates only the primary.
#[derive(Debug, Clone, Copy, PartialEq, Eq, Structural)]
pub enum CacheMode {
    Demo,
    Bench,
}

/// Compare two strings by content.
pub fn str_eq(a: &str, b: &str) -> (r: bool)
    ensures
        r == (a@ == b@),
{
    let x = a.to_owned();
    let y = b.to_owned();
    x == y
}

/// Compare two byte slices by content.
pub(crate) fn bytes_eq(a: &[u8], b: &[u8]) -> (r: bool)
    ensures
        r == (a@ == b@),
{
    if a.len() != b.len() {
        return false;
    }
    let mut i: usize = 0;
    while i < a.len()
        invariant
            i <= a.len(),
            a.len() == b.len(),
            forall|j: int| 0 <= j < i ==> a@[j] == b@[j],
        decreases a.len() - i,
    {
        if a[i] != b[i] {
            return false;
        }
        i = i + 1;
    }
    proof {
        assert(a@ =~= b@);
    }
    true
}

/// Whether `d` begins with `pat`.
fn starts_with_pat(d: &Vec<u8>, pat: &[u8]) -> (r: bool)
    ensures
        r == (d@.len() >= pat@.len() && d@.take(pat@.len() as int) == pat@),
{
    if d.len() < pat.len() {
        return false;
    }
    let mut i: usize = 0;
    while i < pat.len()
        invariant
            i <= pat@.len(),
            pat@.len() <= d@.len(),
            forall|j: int| 0 <= j < i ==> d@[j] == pat@[j],
        decreases pat@.len() - i,
    {
        if d[i] != pat[i] {
            proof {
                assert(d@.take(pat@.len() as int)[i as int] != pat@[i as int]);
            }
            return false;
        }
        i = i + 1;
    }
    proof {
        assert(d@.take(pat@.len() as int) =~= pat@);
    }
    true
}

/// The bytes of `d` from position `k` on.
fn tail_vec(d: &Vec<u8>, k: usize) -> (r: Vec<u8>)
    requires
        k <= d@.len(),
    ensures
        r@ == d@.skip(k as int),
{
    let mut out: Vec<u8> = Vec::new();
    let mut i: usize = k;
    while i < d.len()
        invariant
            k <= i <= d@.len(),
            out@.len() == i - k,
            forall|j: int| 0 <= j < out@.len() ==> out@[j] == d@[k + j],
        decreases d@.len() - i,
    {
        out.push(d[i]);
        i = i + 1;
    }
    proof {
        assert(out@ =~= d@.skip(k as int));
    }
    out
}

/// ASCII whitespace, as the directive trimmer sees it.
pub open spec fn is_ws(b: u8) -> bool {
    b == 32 || b == 9 || b == 13 || b == 10
}

/// Leading ASCII whitespace dropped.
pub open spec fn trim_front(s: Seq<u8>) -> Seq<u8>
    decreases s.len(),
{
    if s.len() > 0 && is_ws(s[0]) {
        trim_front(s.drop_first())
    } else {
        s
    }
}

/// Trailing ASCII whitespace dropped.
pub open spec fn trim_back(s: Seq<u8>) -> Seq<u8>
    decreases s.len(),
{
    if s.len() > 0 && is_ws(s.last()) {
        trim_back(s.drop_last())
    } else {
        s
    }
}

/// ASCII whitespace dropped from both ends.
pub open spec fn trim_bytes(s: Seq<u8>) -> Seq<u8> {
    trim_back(trim_front(s))
}

/// ASCII lowercase of one byte.
pub open spec fn lower_byte(b: u8) -> u8 {
    if 65 <= b <= 90 {
        (b + 32) as u8
    } else {
        b
    }
}

/// ASCII lowercase of a byte sequence.
pub open spec fn lower_bytes(s: Seq<u8>) -> Seq<u8> {
    Seq::new(s.len(), |i: int| lower_byte(s[i]))
}

/// Numeric value of a digit sequence, most significant first.
pub open spec fn digits_val(s: Seq<u8>) -> int
    decreases s.len(),
{
    if s.len() == 0 {
        0
    } else {
        digits_val(s.drop_last()) * 10 + (s.last() - 48)
    }
}

/// Whether every byte is an ASCII digit.
pub open spec fn all_digits(s: Seq<u8>) -> bool {
    forall|i: int| 0 <= i < s.len() ==> 48 <= #[trigger] s[i] <= 57
}

/// What `str::parse::<u64>` accepts: an optional plus sign, then one or more
/// digits, with a value that fits in 64 bits.
pub open spec fn parse_u64(s: Seq<u8>) -> Option<u64> {
    let d = if s.len() > 0 && s[0] == 43 {
        s.drop_first()
    } else {
        s
    };
    if d.len() > 0 && all_digits(d) && 0 <= digits_val(d) <= u64::MAX {
        Some(digits_val(d) as u64)
    } else {
        None
    }
}

/// One Cache-Control directive applied to the accumulated decision
/// (cacheable flag, seconds of max-age). Matching is ASCII-case-insensitive
/// after ASCII trimming; `max-age=` and `s-maxage=` both set the age, so the
/// last directive that parses wins.
pub open spec fn cc_apply(acc: (bool, Option<u64>), dir_raw: Seq<u8>) -> (bool, Option<u64>) {
    let d = lower_bytes(trim_bytes(dir_raw));
    let cacheable = if d == no_store_bytes() || d == no_cache_bytes() || d == private_bytes() {
        false
    } else {
        acc.0
    };
    let age = if d.len() >= 8 && d.take(8) == max_age_eq_bytes() {
        match parse_u64(trim_bytes(d.skip(8))) {
            Some(v) => Some(v),
            None => acc.1,
        }
    } else if d.len() >= 9 && d.take(9) == s_maxage_eq_bytes() {
        match parse_u64(trim_bytes(d.skip(9))) {
            Some(v) => Some(v),
            None => acc.1,
        }
    } else {
        acc.1
    };
    (cacheable, age)
}

/// The bytes of `no-store`.
pub open spec fn no_store_bytes() -> Seq<u8> {
    seq![110u8, 111, 45, 115, 116, 111, 114, 101]
}

/// The bytes of `no-cache`.
pub open spec fn no_cache_bytes() -> Seq<u8> {
    seq![110u8, 111, 45, 99, 97, 99, 104, 101]
}

/// The bytes of `private`.
pub open spec fn private_bytes() -> Seq<u8> {
    seq![112u8, 114, 105, 118, 97, 116, 101]
}

/// The bytes of `max-age=`.
pub open spec fn max_age_eq_bytes() -> Seq<u8> {
    seq![109u8, 97, 120, 45, 97, 103, 101, 61]
}

/// The bytes of `s-maxage=`.
pub open spec fn s_maxage_eq_bytes() -> Seq<u8> {
    seq![115u8, 45, 109, 97, 120, 97, 103, 101, 61]
}

/// The header value split at commas, with `cur` the partial directive
/// gathered so far.
pub open spec fn split_commas(s: Seq<u8>, cur: Seq<u8>) -> Seq<Seq<u8>>
    decreases s.len(),
{
    if s.len() == 0 {
        seq![cur]
    } else if s[0] == 44 {
        seq![cur] + split_commas(s.drop_first(), Seq::empty())
    } else {
        split_commas(s.drop_first(), cur.push(s[0]))
    }
}

/// Directives folded left to right over the accumulated decision.
pub open spec fn cc_fold(dirs: Seq<Seq<u8>>, acc: (bool, Option<u64>)) -> (bool, Option<u64>)
    decreases dirs.len(),
{
    if dirs.len() == 0 {
        acc
    } else {
        cc_fold(dirs.drop_first(), cc_apply(acc, dirs[0]))
    }
}

/// The decision for a whole Cache-Control header value, over its UTF-8 bytes.
pub open spec fn spec_parse_cache_control(bytes: Seq<u8>) -> (bool, Option<u64>) {
    cc_fold(split_commas(bytes, Seq::empty()), (true, None))
}

/// Whether a proxied response may enter the cache: a GET request, an OK
/// status, a body within the configured bound, and a Cache-Control header
/// (when present) that allows caching.
pub fn should_cache_response(
    method_is_get: bool,
    status: u16,
    body_len: usize,
    max_body_size: usize,
    cache_control: Option<&str>,
) -> (r: bool)
    ensures
        r == (method_is_get && status == 200 && body_len <= max_body_size && (match cache_control {
            Some(cc) => spec_parse_cache_control(cc.spec_bytes()).0,
            None => true,
        })),
{
    let headers_ok = match cache_control {
        Some(cc) => parse_cache_control(cc).cacheable,
        None => true,
    };
    method_is_get && status == 200 && body_len <= max_body_size && headers_ok
}

/// Cacheability decision parsed from a Cache-Control header value.
pub struct CacheControl {
    pub cacheable: bool,
    pub max_age_secs: Option<u64>,
}

/// ASCII-trim and ASCII-lowercase one gathered directive.
fn normalize_directive(dir: &Vec<u8>) -> (r: Vec<u8>)
    ensures
        r@ == lower_bytes(trim_bytes(dir@)),
{
    let mut start: usize = 0;
    proof {
        assert(dir@.skip(0) =~= dir@);
    }
    while start < dir.len() && (dir[start] == 32 || dir[start] == 9 || dir[start] == 13 || dir[start] == 10)
        invariant
            start <= dir@.len(),
            trim_front(dir@) == trim_front(dir@.skip(start as int)),
        decreases dir.len() - start,
    {
        proof {
            assert(dir@.skip(start as int).drop_first() =~= dir@.skip(start + 1));
        }
        start = start + 1;
    }
    let mut end: usize = dir.len();
    proof {
        assert(dir@.skip(start as int).len() == 0 || !is_ws(dir@.skip(start as int)[0]));
        assert(trim_front(dir@.skip(start as int)) =~= dir@.skip(start as int));
        assert(trim_bytes(dir@) == trim_back(dir@.skip(start as int)));
        assert(dir@.skip(start as int).take(end - start as int) =~= dir@.skip(start as int));
    }
    while end > start && (dir[end - 1] == 32 || dir[end - 1] == 9 || dir[end - 1] == 13 || dir[end - 1] == 10)
        invariant
            start <= end <= dir@.len(),
            trim_back(dir@.skip(start as int)) == trim_back(dir@.skip(start as int).take(end - start as int)),
            trim_front(dir@.skip(start as int)) == dir@.skip(start as int),
        decreases end,
    {
        proof {
            let piece = dir@.skip(start as int).take(end - start as int);
            assert(piece.last() == dir@[end - 1]);
            assert(piece.drop_last() =~= dir@.skip(start as int).take(end - 1 - start as int));
        }
        end = end - 1;
    }
    let ghost trimmed = trim_bytes(dir@);
    proof {
        let piece = dir@.skip(start as int).take(end - start as int);
        assert(piece.len() == 0 || !is_ws(piece.last()));
        assert(trim_back(piece) =~= piece);
        assert(trimmed == piece);
    }
    let mut out: Vec<u8> = Vec::new();
    let mut i: usize = start;
    while i < end
        invariant
            start <= i <= end <= dir@.len(),
            trimmed == dir@.skip(start as int).take(end - start as int),
            out@.len() == i - start,
            forall|j: int| 0 <= j < out@.len() ==> out@[j] == lower_byte(trimmed[j]),
        decreases end - i,
    {
        let b = dir[i];
        let lb = if 65 <= b && b <= 90 { b + 32 } else { b };
        out.push(lb);
        i = i + 1;
    }
    proof {
        assert(out@ =~= lower_bytes(trimmed));
    }
    out
}

/// Parse the digits of a directive value the way `str::parse::<u64>` would:
/// an optional plus sign, one or more digits, no overflow.
pub(crate) fn parse_u64_bytes(s: &[u8]) -> (r: Option<u64>)
    ensures
        r == parse_u64(s@),
{
    let plus: usize = if s.len() > 0 && s[0] == 43 {
        1
    } else {
        0
    };
    proof {
        assert(s@.skip(plus as int) =~= (if s@.len() > 0 && s@[0] == 43 { s@.drop_first() } else { s@ }));
    }
    if plus == s.len() {
        return None;
    }
    let mut v: u64 = 0;
    let mut i: usize = plus;
    proof {
        assert(s@.subrange(plus as int, plus as int) =~= Seq::<u8>::empty());
    }
    while i < s.len()
        invariant
            plus <= i <= s@.len(),
            plus < s@.len(),
            plus == 1 ==> s@.len() > 0 && s@[0] == 43,
            plus == 0 || plus == 1,
            plus == 0 ==> !(s@.len() > 0 && s@[0] == 43),
            all_digits(s@.subrange(plus as int, i as int)),
            v == digits_val(s@.subrange(plus as int, i as int)),
            digits_val(s@.subrange(plus as int, i as int)) <= u64::MAX,
        decreases s@.len() - i,
    {
        let ghost d = s@.skip(plus as int);
        proof {
            assert(d =~= (if s@.len() > 0 && s@[0] == 43 { s@.drop_first() } else { s@ }));
            assert(d.len() == s@.len() - plus);
        }
        let b = s[i];
        if b < 48 || b > 57 {
            proof {
                assert(d[i - plus] == s@[i as int]);
                assert(!all_digits(d));
            }
            return None;
        }
        let digit = (b - 48) as u64;
        let ghost pre_digits = s@.subrange(plus as int, i as int);
        proof {
            let t = s@.subrange(plus as int, i + 1);
            assert(t.drop_last() =~= pre_digits);
            assert(t.last() == s@[i as int]);
            assert(digits_val(t) == v * 10 + digit);
        }
        if v > (u64::MAX - digit) / 10 {
            proof {
                let t = s@.subrange(plus as int, i + 1);
                assert(v * 10 + digit > u64::MAX) by (nonlinear_arith)
                    requires v > (u64::MAX - digit) / 10, digit <= 9, v <= u64::MAX,
                ;
                if all_digits(d) {
                    assert(t =~= d.take(i + 1 - plus));
                    assert forall|j: int| 0 <= j < d.len() implies
                        48 <= #[trigger] d.take(d.len() as int)[j] <= 57 by {
                        assert(d.take(d.len() as int)[j] == d[j]);
                    }
                    lemma_digits_val_monotone(d, i + 1 - plus, d.len() as int);
                    assert(d.take(d.len() as int) =~= d);
                    assert(digits_val(d) > u64::MAX);
                }
            }
            return None;
        }
        proof {
            assert(v * 10 + digit <= u64::MAX) by (nonlinear_arith)
                requires v <= (u64::MAX - digit) / 10, digit <= 9,
            ;
        }
        v = v * 10 + digit;
        i = i + 1;
    }
    proof {
        let d = s@.skip(plus as int);
        assert(d =~= s@.subrange(plus as int, s@.len() as int));
        assert(parse_u64(s@) == Some(v));
    }
    Some(v)
}

/// A digit string's value is never negative.
proof fn lemma_digits_val_nonneg(s: Seq<u8>)
    requires
        all_digits(s),
    ensures
        digits_val(s) >= 0,
    decreases s.len(),
{
    if s.len() > 0 {
        assert(all_digits(s.drop_last()));
        lemma_digits_val_nonneg(s.drop_last());
        assert(digits_val(s.drop_last()) * 10 >= 0) by (nonlinear_arith)
            requires digits_val(s.drop_last()) >= 0,
        ;
    }
}

/// Appending digits never shrinks the value.
proof fn lemma_digits_val_monotone(d: Seq<u8>, k0: int, k: int)
    requires
        0 <= k0 <= k <= d.len(),
        all_digits(d.take(k)),
    ensures
        digits_val(d.take(k)) >= digits_val(d.take(k0)),
    decreases k - k0,
{
    if k > k0 {
        assert forall|j: int| 0 <= j < k - 1 implies 48 <= #[trigger] d.take(k - 1)[j] <= 57 by {
            assert(d.take(k)[j] == d.take(k - 1)[j]);
        }
        lemma_digits_val_monotone(d, k0, k - 1);
        let t = d.take(k);
        assert(t.drop_last() =~= d.take(k - 1));
        assert(digits_val(t) == digits_val(d.take(k - 1)) * 10 + (t.last() - 48));
        lemma_digits_val_nonneg(d.take(k - 1));
        assert(digits_val(d.take(k - 1)) * 10 >= digits_val(d.take(k - 1))) by (nonlinear_arith)
            requires digits_val(d.take(k - 1)) >= 0,
        ;
        assert(48 <= t.last() <= 57);
    }
}

/// Apply one directive to the running decision.
fn apply_directive(dir: &Vec<u8>, acc: (bool, Option<u64>)) -> (r: (bool, Option<u64>))
    ensures
        r == cc_apply(acc, dir@),
{
    let d = normalize_directive(dir);
    let no_store: [u8; 8] = [110, 111, 45, 115, 116, 111, 114, 101];
    let no_cache: [u8; 8] = [110, 111, 45, 99, 97, 99, 104, 101];
    let private_word: [u8; 7] = [112, 114, 105, 118, 97, 116, 101];
    let max_age_eq: [u8; 8] = [109, 97, 120, 45, 97, 103, 101, 61];
    let s_maxage_eq: [u8; 9] = [115, 45, 109, 97, 120, 97, 103, 101, 61];
    proof {
        assert(no_store@ =~= no_store_bytes());
        assert(no_cache@ =~= no_cache_bytes());
        assert(private_word@ =~= private_bytes());
        assert(max_age_eq@ =~= max_age_eq_bytes());
        assert(s_maxage_eq@ =~= s_maxage_eq_bytes());
    }
    let cacheable = if bytes_eq(d.as_slice(), &no_store) || bytes_eq(d.as_slice(), &no_cache)
        || bytes_eq(d.as_slice(), &private_word) {
        false
    } else {
        acc.0
    };
    let mut age = acc.1;
    if starts_with_pat(&d, &max_age_eq) {
        let rest_dir = tail_vec(&d, 8);
        let trimmed = normalize_directive(&rest_dir);
        match parse_u64_bytes(trimmed.as_slice()) {
            Some(v) => {
                age = Some(v);
            },
            None => {},
        }
        proof {
            lemma_parse_lower(trim_bytes(d@.skip(8)));
        }
        return (cacheable, age);
    }
    if starts_with_pat(&d, &s_maxage_eq) {
        let rest_dir = tail_vec(&d, 9);
        let trimmed = normalize_directive(&rest_dir);
        match parse_u64_bytes(trimmed.as_slice()) {
            Some(v) => {
                age = Some(v);
            },
            None => {},
        }
        proof {
            lemma_parse_lower(trim_bytes(d@.skip(9)));
        }
        return (cacheable, age);
    }
    (cacheable, age)
}

/// Lowercasing does not disturb digits or a leading plus sign, so parsing a
/// lowercased value parses the value itself.
proof fn lemma_parse_lower(s: Seq<u8>)
    ensures
        parse_u64(lower_bytes(s)) == parse_u64(s),
{
    let l = lower_bytes(s);
    assert(l.len() == s.len());
    if s.len() > 0 {
        assert(l[0] == lower_byte(s[0]));
    }
    let d0 = if s.len() > 0 && s[0] == 43 { s.drop_first() } else { s };
    let d1 = if l.len() > 0 && l[0] == 43 { l.drop_first() } else { l };
    if s.len() > 0 && s[0] == 43 {
        assert(d1 =~= lower_bytes(d0));
    } else {
        if l.len() > 0 && l[0] == 43 {
            assert(s[0] == 43);
        }
        assert(d1 =~= lower_bytes(d0));
    }
    if all_digits(d0) {
        assert(lower_bytes(d0) =~= d0);
    }
    if all_digits(d1) {
        assert forall|i: int| 0 <= i < d0.len() implies 48 <= #[trigger] d0[i] <= 57 by {
            assert(d1[i] == lower_byte(d0[i]));
        }
        assert(lower_bytes(d0) =~= d0);
    }
}

/// Parse a Cache-Control header value to determine cacheability and TTL.
///
/// Directive names are matched ASCII-case-insensitively after trimming ASCII
/// whitespace; `max-age=` and `s-maxage=` both set the age in seconds, the
/// last directive that parses winning.
pub fn parse_cache_control(value: &str) -> (r: CacheControl)
    ensures
        r.cacheable == spec_parse_cache_control(value.spec_bytes()).0,
        r.max_age_secs == spec_parse_cache_control(value.spec_bytes()).1,
{
    let bytes = value.as_bytes();
    let mut acc: (bool, Option<u64>) = (true, None);
    let mut cur: Vec<u8> = Vec::new();
    let mut i: usize = 0;
    proof {
        assert(bytes@.skip(0) =~= bytes@);
    }
    while i < bytes.len()
        invariant
            i <= bytes@.len(),
            bytes@ == value.spec_bytes(),
            spec_parse_cache_control(value.spec_bytes())
                == cc_fold(split_commas(bytes@.skip(i as int), cur@), acc),
        decreases bytes@.len() - i,
    {
        let b = bytes[i];
        let ghost rest = bytes@.skip(i as int);
        let ghost cur0 = cur@;
        proof {
            assert(rest[0] == bytes@[i as int]);
            assert(rest.drop_first() =~= bytes@.skip(i + 1));
        }
        if b == 44 {
            let done = apply_directive(&cur, acc);
            acc = done;
            cur = Vec::new();
            proof {
                let z = split_commas(rest.drop_first(), Seq::empty());
                assert(split_commas(rest, cur0) == seq![cur0] + z);
                assert((seq![cur0] + z)[0] == cur0);
                assert((seq![cur0] + z).drop_first() =~= z);
            }
        } else {
            cur.push(b);
        }
        i = i + 1;
    }
    let done = apply_directive(&cur, acc);
    proof {
        assert(bytes@.skip(bytes@.len() as int) =~= Seq::<u8>::empty());
        assert(split_commas(Seq::empty(), cur@) == seq![cur@]);
        let one = seq![cur@];
        assert(one[0] == cur@);
        assert(one.drop_first() =~= Seq::<Seq<u8>>::empty());
        assert(cc_fold(Seq::<Seq<u8>>::empty(), cc_apply(acc, cur@)) == cc_apply(acc, cur@));
        assert(cc_fold(one, acc) == cc_apply(acc, cur@));
    }
    CacheControl { cacheable: done.0, max_age_secs: done.1 }
}

/// Which eviction policy a cache runs.
pub enum PolicyKind {
    Sieve,
    Lru,
    Fifo,
}

/// Ghost image of a type-erased sharded cache: which policy, and the models
/// of its 64 shards.
#[verifier::ext_equal]
pub ghost struct InnerModel {
    pub kind: PolicyKind,
    pub shards: Seq<PolicyModel>,
}

/// The policy's name, as the facade reports it.
pub open spec fn spec_kind_name(kind: PolicyKind) -> Seq<char> {
    match kind {
        PolicyKind::Sieve => SieveCache::spec_name(),
        PolicyKind::Lru => LruCache::spec_name(),
        PolicyKind::Fifo => FifoCache::spec_name(),
    }
}

/// The policy a configuration string selects.
pub open spec fn spec_kind_of(policy: Seq<char>) -> PolicyKind {
    if policy == "sieve"@ {
        PolicyKind::Sieve
    } else if policy == "lru"@ {
        PolicyKind::Lru
    } else {
        PolicyKind::Fifo
    }
}

/// The recognized policy names.
pub open spec fn is_policy_name(policy: Seq<char>) -> bool {
    policy == "sieve"@ || policy == "lru"@ || policy == "fifo"@
}

/// A freshly built cache: 64 empty shards of the per-shard capacity.
pub open spec fn fresh_inner(kind: PolicyKind, capacity: usize) -> InnerModel {
    InnerModel {
        kind,
        shards: Seq::new(crate::sharded::SHARD_COUNT as nat, |i: int|
            PolicyModel::fresh(spec_per_shard(capacity) as nat)),
    }
}

/// What a lookup does to a type-erased cache: the policy's own get step,
/// applied to the shard the key hashes to.
pub open spec fn inner_step_get(m: InnerModel, key: Seq<char>, now_ms: u64) -> (InnerModel, Option<RespView>) {
    let i = spec_shard_of(key);
    match m.kind {
        PolicyKind::Sieve => {
            let (s2, v) = SieveCache::step_get(m.shards[i], key, now_ms);
            (InnerModel { shards: m.shards.update(i, s2), ..m }, v)
        },
        PolicyKind::Lru => {
            let (s2, v) = LruCache::step_get(m.shards[i], key, now_ms);
            (InnerModel { shards: m.shards.update(i, s2), ..m }, v)
        },
        PolicyKind::Fifo => {
            let (s2, v) = FifoCache::step_get(m.shards[i], key, now_ms);
            (InnerModel { shards: m.shards.update(i, s2), ..m }, v)
        },
    }
}

/// What an insert does to a type-erased cache.
pub open spec fn inner_step_insert(m: InnerModel, key: Seq<char>, value: RespView, now_ms: u64) -> InnerModel {
    let i = spec_shard_of(key);
    match m.kind {
        PolicyKind::Sieve => InnerModel {
            shards: m.shards.update(i, SieveCache::step_insert(m.shards[i], key, value, now_ms)),
            ..m
        },
        PolicyKind::Lru => InnerModel {
            shards: m.shards.update(i, LruCache::step_insert(m.shards[i], key, value, now_ms)),
            ..m
        },
        PolicyKind::Fifo => InnerModel {
            shards: m.shards.update(i, FifoCache::step_insert(m.shards[i], key, value, now_ms)),
            ..m
        },
    }
}

/// What a removal does to a type-erased cache, and whether the key existed.
pub open spec fn inner_step_remove(m: InnerModel, key: Seq<char>) -> (InnerModel, bool) {
    let i = spec_shard_of(key);
    match m.kind {
        PolicyKind::Sieve => {
            let (s2, b) = SieveCache::step_remove(m.shards[i], key);
            (InnerModel { shards: m.shards.update(i, s2), ..m }, b)
        },
        PolicyKind::Lru => {
            let (s2, b) = LruCache::step_remove(m.shards[i], key);
            (InnerModel { shards: m.shards.update(i, s2), ..m }, b)
        },
        PolicyKind::Fifo => {
            let (s2, b) = FifoCache::step_remove(m.shards[i], key);
            (InnerModel { shards: m.shards.update(i, s2), ..m }, b)
        },
    }
}

/// Type-erased cache that wraps a sharded cache with any of the three
/// policies.
enum CacheInner {
    Sieve(ShardedCache<SieveCache>),
    Lru(ShardedCache<LruCache>),
    Fifo(ShardedCache<FifoCache>),
}

impl CacheInner {
    spec fn inv(&self) -> bool {
        match self {
            CacheInner::Sieve(c) => c.inv(),
            CacheInner::Lru(c) => c.inv(),
            CacheInner::Fifo(c) => c.inv(),
        }
    }

    spec fn model(&self) -> InnerModel {
        match self {
            CacheInner::Sieve(c) => InnerModel { kind: PolicyKind::Sieve, shards: c.models() },
            CacheInner::Lru(c) => InnerModel { kind: PolicyKind::Lru, shards: c.models() },
            CacheInner::Fifo(c) => InnerModel { kind: PolicyKind::Fifo, shards: c.models() },
        }
    }

    fn get(&mut self, key: &str, now_ms: u64) -> (r: Option<Arc<CachedResponse>>)
        requires
            old(self).inv(),
        ensures
            final(self).inv(),
            ({
                let (m2, v) = inner_step_get(old(self).model(), key@, now_ms);
                final(self).model() == m2 && crate::model::opt_resp_matches(r, v)
            }),
    {
        match self {
            CacheInner::Sieve(c) => {
                let r = c.get(key, now_ms);
                proof {
                    assert(self.model() =~= inner_step_get(old(self).model(), key@, now_ms).0);
                }
                r
            },
            CacheInner::Lru(c) => {
                let r = c.get(key, now_ms);
                proof {
                    assert(self.model() =~= inner_step_get(old(self).model(), key@, now_ms).0);
                }
                r
            },
            CacheInner::Fifo(c) => {
                let r = c.get(key, now_ms);
                proof {
                    assert(self.model() =~= inner_step_get(old(self).model(), key@, now_ms).0);
                }
                r
            },
        }
    }

    fn insert(&mut self, key: String, value: CachedResponse, now_ms: u64)
        requires
            old(self).inv(),
        ensures
            final(self).inv(),
            final(self).model() == inner_step_insert(old(self).model(), key@, value@, now_ms),
    {
        let ghost key_view = key@;
        let ghost value_view = value@;
        match self {
            CacheInner::Sieve(c) => {
                c.insert(key, value, now_ms);
                proof {
                    assert(self.model() =~= inner_step_insert(old(self).model(), key_view, value_view, now_ms));
                }
            },
            CacheInner::Lru(c) => {
                c.insert(key, value, now_ms);
                proof {
                    assert(self.model() =~= inner_step_insert(old(self).model(), key_view, value_view, now_ms));
                }
            },
            CacheInner::Fifo(c) => {
                c.insert(key, value, now_ms);
                proof {
                    assert(self.model() =~= inner_step_insert(old(self).model(), key_view, value_view, now_ms));
                }
            },
        }
    }

    fn remove(&mut self, key: &str) -> (r: bool)
        requires
            old(self).inv(),
        ensures
            final(self).inv(),
            ({
                let (m2, b) = inner_step_remove(old(self).model(), key@);
                final(self).model() == m2 && r == b
            }),
    {
        match self {
            CacheInner::Sieve(c) => {
                let r = c.remove(key);
                proof {
                    assert(self.model() =~= inner_step_remove(old(self).model(), key@).0);
                }
                r
            },
            CacheInner::Lru(c) => {
                let r = c.remove(key);
                proof {
                    assert(self.model() =~= inner_step_remove(old(self).model(), key@).0);
                }
                r
            },
            CacheInner::Fifo(c) => {
                let r = c.remove(key);
                proof {
                    assert(self.model() =~= inner_step_remove(old(self).model(), key@).0);
                }
                r
            },
        }
    }

    fn stats(&self) -> (r: CacheStats)
        requires
            self.inv(),
        ensures
            r.hits == sum_hits(self.model().shards),
            r.misses == sum_misses(self.model().shards),
            r.evictions == sum_evictions(self.model().shards),
            r.current_size as nat == sum_len(self.model().shards),
            r.capacity as nat == sum_cap(self.model().shards),
    {
        match self {
            CacheInner::Sieve(c) => c.stats(),
            CacheInner::Lru(c) => c.stats(),
            CacheInner::Fifo(c) => c.stats(),
        }
    }

    fn name(&self) -> (r: &'static str)
        requires
            self.inv(),
        ensures
            r@ == spec_kind_name(self.model().kind),
    {
        match self {
            CacheInner::Sieve(c) => c.name(),
            CacheInner::Lru(c) => c.name(),
            CacheInner::Fifo(c) => c.name(),
        }
    }
}

/// Build a sharded cache for the named policy.
fn build_cache(policy: &str, capacity: usize) -> (r: CacheInner)
    requires
        is_policy_name(policy@),
        spec_per_shard(capacity) < u32::MAX as usize,
    ensures
        r.inv(),
        r.model() == fresh_inner(spec_kind_of(policy@), capacity),
{
    if str_eq(policy, "sieve") {
        let c = ShardedCache::new(capacity, SieveCache::new);
        let r = CacheInner::Sieve(c);
        proof {
            assert(r.model() =~= fresh_inner(spec_kind_of(policy@), capacity));
        }
        r
    } else if str_eq(policy, "lru") {
        let c = ShardedCache::new(capacity, LruCache::new);
        let r = CacheInner::Lru(c);
        proof {
            assert(r.model() =~= fresh_inner(spec_kind_of(policy@), capacity));
        }
        r
    } else {
        let c = ShardedCache::new(capacity, FifoCache::new);
        let r = CacheInner::Fifo(c);
        proof {
            assert(r.model() =~= fresh_inner(spec_kind_of(policy@), capacity));
        }
        r
    }
}

/// Ghost image of the whole facade.
#[verifier::ext_equal]
pub ghost struct LayerModel {
    pub primary: InnerModel,
    pub comparison: Option<InnerModel>,
    pub demo: bool,
    pub default_ttl_ms: u64,
    pub max_body_size: usize,
}

/// What a facade lookup does: the primary cache always steps; in demo mode
/// the comparison cache steps too, its result kept only as a hit flag.
pub open spec fn layer_step_get(m: LayerModel, key: Seq<char>, now_ms: u64) -> (LayerModel, Option<RespView>, bool) {
    let (p2, v) = inner_step_get(m.primary, key, now_ms);
    if m.demo && m.comparison is Some {
        let (c2, cv) = inner_step_get(m.comparison.unwrap(), key, now_ms);
        (LayerModel { primary: p2, comparison: Some(c2), ..m }, v, cv is Some)
    } else {
        (LayerModel { primary: p2, ..m }, v, false)
    }
}

/// Whatever policy the primary cache runs, a value handed back by a facade
/// lookup is unexpired at the instant of the call.
pub proof fn lemma_layer_get_fresh(m: LayerModel, key: Seq<char>, now_ms: u64)
    ensures
        ({
            let (_, v, _) = layer_step_get(m, key, now_ms);
            v matches Some(vv) ==> !crate::traits::resp_expired(vv, now_ms)
        }),
{
    let i = spec_shard_of(key);
    crate::fifo::lemma_fifo_get_fresh(m.primary.shards[i], key, now_ms);
    crate::lru::lemma_lru_get_fresh(m.primary.shards[i], key, now_ms);
    crate::sieve::lemma_sieve_get_fresh(m.primary.shards[i], key, now_ms);
}

/// What a facade insert does: the comparison cache (in demo mode) and the
/// primary cache each take the value.
pub open spec fn layer_step_insert(m: LayerModel, key: Seq<char>, value: RespView, now_ms: u64) -> LayerModel {
    let c2 = if m.demo && m.comparison is Some {
        Some(inner_step_insert(m.comparison.unwrap(), key, value, now_ms))
    } else {
        m.comparison
    };
    LayerModel {
        primary: inner_step_insert(m.primary, key, value, now_ms),
        comparison: c2,
        ..m
    }
}

/// What a facade removal does: the primary cache always steps; in demo mode
/// the comparison cache steps too. The reported flag is the primary's.
pub open spec fn layer_step_remove(m: LayerModel, key: Seq<char>) -> (LayerModel, bool) {
    let (p2, b) = inner_step_remove(m.primary, key);
    let c2 = if m.demo && m.comparison is Some {
        Some(inner_step_remove(m.comparison.unwrap(), key).0)
    } else {
        m.comparison
    };
    (LayerModel { primary: p2, comparison: c2, ..m }, b)
}

/// Result of a cache lookup, with the comparison cache's shadow verdict.
pub struct CacheLookup {
    pub value: Option<Arc<CachedResponse>>,
    pub comparison_hit: bool,
}

impl CacheLookup {
    pub fn is_hit(&self) -> (r: bool)
        ensures
            r == (self.value is Some),
    {
        self.value.is_some()
    }
}

/// Dual-cache layer for the proxy: a primary cache that serves responses and
/// an optional comparison cache driven with the identical access stream.
pub struct CacheLayer {
    primary: CacheInner,
    comparison: Option<CacheInner>,
    demo_mode: bool,
    pub default_ttl_ms: u64,
    pub max_body_size: usize,
}

impl View for CacheLayer {
    type V = LayerModel;

    closed spec fn view(&self) -> LayerModel {
        LayerModel {
            primary: self.primary.model(),
            comparison: match &self.comparison {
                Some(c) => Some(c.model()),
                None => None,
            },
            demo: self.demo_mode,
            default_ttl_ms: self.default_ttl_ms,
            max_body_size: self.max_body_size,
        }
    }
}

impl CacheLayer {
    /// Both caches hold their invariants.
    pub closed spec fn inv(&self) -> bool {
        &&& self.primary.inv()
        &&& match &self.comparison {
            Some(c) => c.inv(),
            None => true,
        }
    }

    /// Build the facade: a primary cache, an optional comparison cache of
    /// the same capacity, demo mode on.
    pub fn new(
        primary_policy: &str,
        comparison_policy: Option<&str>,
        capacity: usize,
        default_ttl_ms: u64,
        max_body_size: usize,
    ) -> (r: CacheLayer)
        requires
            is_policy_name(primary_policy@),
            (comparison_policy matches Some(p) ==> is_policy_name(p@)),
            spec_per_shard(capacity) < u32::MAX as usize,
        ensures
            r.inv(),
            r@ == (LayerModel {
                primary: fresh_inner(spec_kind_of(primary_policy@), capacity),
                comparison: match comparison_policy {
                    Some(p) => Some(fresh_inner(spec_kind_of(p@), capacity)),
                    None => None,
                },
                demo: true,
                default_ttl_ms,
                max_body_size,
            }),
    {
        let primary = build_cache(primary_policy, capacity);
        let comparison = match comparison_policy {
            Some(p) => Some(build_cache(p, capacity)),
            None => None,
        };
        CacheLayer { primary, comparison, demo_mode: true, default_ttl_ms, max_body_size }
    }

    /// Look up a key in the primary cache; in demo mode the comparison cache
    /// sees the same lookup, its result kept only as a hit flag.
    pub fn get(&mut self, key: &str, now_ms: u64) -> (r: CacheLookup)
        requires
            old(self).inv(),
        ensures
            final(self).inv(),
            ({
                let (m2, v, ch) = layer_step_get(old(self)@, key@, now_ms);
                final(self)@ == m2 && crate::model::opt_resp_matches(r.value, v)
                    && r.comparison_hit == ch
            }),
    {
        let primary_result = self.primary.get(key, now_ms);
        let comparison_hit = if self.demo_mode {
            match &mut self.comparison {
                Some(comp) => {
                    let cr = comp.get(key, now_ms);
                    cr.is_some()
                },
                None => false,
            }
        } else {
            false
        };
        proof {
            assert(self@ =~= layer_step_get(old(self)@, key@, now_ms).0);
        }
        CacheLookup { value: primary_result, comparison_hit }
    }

    /// Insert into the primary cache; in demo mode the comparison cache
    /// takes a copy of the value.
    pub fn insert(&mut self, key: String, value: CachedResponse, now_ms: u64)
        requires
            old(self).inv(),
        ensures
            final(self).inv(),
            final(self)@ == layer_step_insert(old(self)@, key@, value@, now_ms),
    {
        let ghost key_view = key@;
        let ghost value_view = value@;
        if self.demo_mode {
            match &mut self.comparison {
                Some(comp) => {
                    comp.insert(key.clone(), value.clone(), now_ms);
                },
                None => {},
            }
        }
        self.primary.insert(key, value, now_ms);
        proof {
            assert(self@ =~= layer_step_insert(old(self)@, key_view, value_view, now_ms));
        }
    }

    /// Remove a key from the primary cache (and, in demo mode, from the
    /// comparison cache); reports whether the primary held it.
    pub fn remove(&mut self, key: &str) -> (r: bool)
        requires
            old(self).inv(),
        ensures
            final(self).inv(),
            ({
                let (m2, b) = layer_step_remove(old(self)@, key@);
                final(self)@ == m2 && r == b
            }),
    {
        if self.demo_mode {
            match &mut self.comparison {
                Some(comp) => {
                    let cr = comp.remove(key);
                },
                None => {},
            }
        }
        let r = self.primary.remove(key);
        proof {
            assert(self@ =~= layer_step_remove(old(self)@, key@).0);
        }
        r
    }

    /// Assemble a cached response from raw HTTP response parts; the TTL
    /// falls back to the configured default.
    pub fn build_response(
        &self,
        status: u16,
        headers: Vec<(String, String)>,
        body: bytes::Bytes,
        ttl_ms: Option<u64>,
        now_ms: u64,
    ) -> (r: CachedResponse)
        ensures
            r == (CachedResponse {
                status,
                headers,
                body,
                inserted_at_ms: now_ms,
                ttl_ms: match ttl_ms {
                    Some(t) => t,
                    None => self@.default_ttl_ms,
                },
            }),
    {
        let ttl = match ttl_ms {
            Some(t) => t,
            None => self.default_ttl_ms,
        };
        CachedResponse { status, headers, body, inserted_at_ms: now_ms, ttl_ms: ttl }
    }

    /// Look up a key and hand back just the body bytes.
    pub fn get_raw(&mut self, key: &str, now_ms: u64) -> (r: Option<bytes::Bytes>)
        requires
            old(self).inv(),
        ensures
            final(self).inv(),
            ({
                let (m2, v, _) = layer_step_get(old(self)@, key@, now_ms);
                final(self)@ == m2 && (match r {
                    Some(b) => v is Some && crate::traits::bytes_view(b) == v.unwrap().body,
                    None => v is None,
                })
            }),
    {
        let lookup = self.get(key, now_ms);
        match lookup.value {
            Some(v) => Some(v.body_bytes()),
            None => None,
        }
    }

    /// Store raw bytes under a key as a synthetic OK response.
    pub fn insert_raw(&mut self, key: String, body: bytes::Bytes, ttl_ms: Option<u64>, now_ms: u64)
        requires
            old(self).inv(),
        ensures
            final(self).inv(),
            final(self)@ == layer_step_insert(old(self)@, key@, (RespView {
                status: 200,
                headers: Seq::empty(),
                body: crate::traits::bytes_view(body),
                inserted_at_ms: now_ms,
                ttl_ms: match ttl_ms {
                    Some(t) => t,
                    None => old(self)@.default_ttl_ms,
                },
            }), now_ms),
    {
        let ttl = match ttl_ms {
            Some(t) => t,
            None => self.default_ttl_ms,
        };
        let value = CachedResponse {
            status: 200,
            headers: Vec::new(),
            body,
            inserted_at_ms: now_ms,
            ttl_ms: ttl,
        };
        proof {
            assert(value@ =~= (RespView {
                status: 200,
                headers: Seq::empty(),
                body: crate::traits::bytes_view(value.body),
                inserted_at_ms: now_ms,
                ttl_ms: ttl,
            }));
        }
        self.insert(key, value, now_ms);
    }

    /// Milliseconds of life the cached entry for `key` has left, `None` when
    /// the key is absent or expired. Counts as a lookup on the caches.
    pub fn ttl_remaining(&mut self, key: &str, now_ms: u64) -> (r: Option<u64>)
        requires
            old(self).inv(),
        ensures
            final(self).inv(),
            ({
                let (m2, v, _) = layer_step_get(old(self)@, key@, now_ms);
                final(self)@ == m2 && (match r {
                    Some(t) => v is Some && t == crate::traits::spec_remaining_ttl(v.unwrap(), now_ms),
                    None => v is None,
                })
            }),
    {
        proof {
            lemma_layer_get_fresh(old(self)@, key@, now_ms);
        }
        let lookup = self.get(key, now_ms);
        match lookup.value {
            Some(v) => Some(v.remaining_ttl_ms(now_ms)),
            None => None,
        }
    }

    pub fn primary_stats(&self) -> (r: CacheStats)
        requires
            self.inv(),
        ensures
            r.hits == sum_hits(self@.primary.shards),
            r.misses == sum_misses(self@.primary.shards),
            r.evictions == sum_evictions(self@.primary.shards),
            r.current_size as nat == sum_len(self@.primary.shards),
            r.capacity as nat == sum_cap(self@.primary.shards),
    {
        self.primary.stats()
    }

    pub fn comparison_stats(&self) -> (r: Option<CacheStats>)
        requires
            self.inv(),
        ensures
            match r {
                Some(s) => self@.comparison is Some && {
                    let shards = self@.comparison.unwrap().shards;
                    s.hits == sum_hits(shards) && s.misses == sum_misses(shards)
                        && s.evictions == sum_evictions(shards)
                        && s.current_size as nat == sum_len(shards)
                        && s.capacity as nat == sum_cap(shards)
                },
                None => self@.comparison is None,
            },
    {
        match &self.comparison {
            Some(c) => Some(c.stats()),
            None => None,
        }
    }

    pub fn primary_name(&self) -> (r: &'static str)
        requires
            self.inv(),
        ensures
            r@ == spec_kind_name(self@.primary.kind),
    {
        self.primary.name()
    }

    pub fn comparison_name(&self) -> (r: Option<&'static str>)
        requires
            self.inv(),
        ensures
            match r {
                Some(n) => self@.comparison is Some && n@ == spec_kind_name(self@.comparison.unwrap().kind),
                None => self@.comparison is None,
            },
    {
        match &self.comparison {
            Some(c) => Some(c.name()),
            None => None,
        }
    }

    pub fn is_demo_mode(&self) -> (r: bool)
        ensures
            r == self@.demo,
    {
        self.demo_mode
    }

    /// Flip between demo and bench mode; the caches keep their contents.
    pub fn set_mode(&mut self, mode: CacheMode)
        requires
            old(self).inv(),
        ensures
            final(self).inv(),
            final(self)@ == (LayerModel { demo: mode is Demo, ..old(self)@ }),
    {
        self.demo_mode = match mode {
            CacheMode::Demo => true,
            CacheMode::Bench => false,
        };
    }

    pub fn mode(&self) -> (r: CacheMode)
        ensures
            r == (if self@.demo { CacheMode::Demo } else { CacheMode::Bench }),
    {
        if self.demo_mode {
            CacheMode::Demo
        } else {
            CacheMode::Bench
        }
    }

    /// Adopt a new default TTL without touching the cached entries.
    pub fn set_default_ttl(&mut self, default_ttl_ms: u64)
        requires
            old(self).inv(),
        ensures
            final(self).inv(),
            final(self)@ == (LayerModel { default_ttl_ms, ..old(self)@ }),
    {
        self.default_ttl_ms = default_ttl_ms;
    }
}

} // verus!
