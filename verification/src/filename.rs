//! Segment file names.
//!
//! A segment file is named `<sanitized-key>-<key-hash>-<seq>.log`,
//! where the sanitized key is the key's displayable form restricted to
//! ASCII letters, digits, `_` and `-` and truncated to twenty
//! characters, the hash is the stable key hash in decimal, and the
//! sequence number is decimal, zero-padded to at least four digits.
//! Parsing takes the last two dash-delimited components of the stem as
//! hash and sequence; names that do not parse are ignored by every
//! scan. Only the hash and sequence are authoritative; the sanitized
//! key is decorative.

use vstd::prelude::*;
use vstd::slice::{slice_subrange, slice_to_vec};

verus! {

/// The ASCII bytes of the `.log` suffix.
pub open spec fn dot_log() -> Seq<u8> {
    seq![46u8, 108u8, 111u8, 103u8]
}

/// An ASCII decimal digit.
pub open spec fn is_dec_digit(b: u8) -> bool {
    48 <= b <= 57
}

/// The decimal digits of `n`, most significant first.
pub open spec fn dec_digits(n: nat) -> Seq<u8>
    decreases n,
{
    if n < 10 {
        seq![(48 + n) as u8]
    } else {
        dec_digits(n / 10).push((48 + n % 10) as u8)
    }
}

/// The decimal digits of `n`, zero-padded to at least four digits.
pub open spec fn seq4_digits(n: nat) -> Seq<u8> {
    if n < 10 {
        seq![48u8, 48u8, 48u8] + dec_digits(n)
    } else if n < 100 {
        seq![48u8, 48u8] + dec_digits(n)
    } else if n < 1000 {
        seq![48u8] + dec_digits(n)
    } else {
        dec_digits(n)
    }
}

/// Every byte is an ASCII decimal digit.
pub open spec fn all_digits(s: Seq<u8>) -> bool {
    forall|i: int| 0 <= i < s.len() ==> is_dec_digit(#[trigger] s[i])
}

/// The number denoted by a digit string, most significant first.
pub open spec fn digits_value(s: Seq<u8>) -> int
    decreases s.len(),
{
    if s.len() == 0 {
        0
    } else {
        digits_value(s.drop_last()) * 10 + (s.last() - 48)
    }
}

/// The number a component denotes, when it is a nonempty digit string
/// whose value fits in a `u64`.
pub open spec fn parse_u64_digits(s: Seq<u8>) -> Option<u64> {
    if s.len() > 0 && all_digits(s) && digits_value(s) <= u64::MAX {
        Some(digits_value(s) as u64)
    } else {
        None
    }
}

/// The index of the last dash in `s`, or `-1` when there is none.
pub open spec fn last_dash(s: Seq<u8>) -> int
    decreases s.len(),
{
    if s.len() == 0 {
        -1
    } else if s.last() == 45 {
        s.len() - 1
    } else {
        last_dash(s.drop_last())
    }
}

/// The hash and sequence number encoded in a segment file name:
/// the last two dash-delimited decimal components of the stem.
#[verifier::opaque]
pub open spec fn parse_filename(name: Seq<u8>) -> Option<(u64, u64)> {
    if name.len() < 4 || name.subrange(name.len() - 4, name.len() as int) != dot_log() {
        None
    } else {
        let stem = name.take(name.len() - 4);
        let i = last_dash(stem);
        if i < 0 {
            None
        } else {
            let j = last_dash(stem.take(i));
            if j < 0 {
                None
            } else {
                match (parse_u64_digits(stem.subrange(j + 1, i)), parse_u64_digits(
                    stem.subrange(i + 1, stem.len() as int),
                )) {
                    (Some(h), Some(q)) => Some((h, q)),
                    _ => None,
                }
            }
        }
    }
}

/// Whether a character of a key's displayable form is kept in the
/// sanitized key: ASCII letters, digits, `_` and `-`.
pub open spec fn keep_char(c: char) -> bool {
    let u = c as u32;
    (97 <= u <= 122) || (65 <= u <= 90) || (48 <= u <= 57) || u == 95 || u == 45
}

/// The kept characters of a displayable form, as ASCII bytes.
pub open spec fn sanitized(s: Seq<char>) -> Seq<u8>
    decreases s.len(),
{
    if s.len() == 0 {
        seq![]
    } else {
        sanitized(s.drop_last()) + (if keep_char(s.last()) {
            seq![s.last() as u8]
        } else {
            seq![]
        })
    }
}

/// The sanitized key of a displayable form: kept characters, truncated
/// to twenty.
#[verifier::opaque]
pub open spec fn sanitized_key(s: Seq<char>) -> Seq<u8> {
    if sanitized(s).len() <= 20 {
        sanitized(s)
    } else {
        sanitized(s).take(20)
    }
}

/// The canonical name of a segment file.
pub open spec fn generate_filename(san: Seq<u8>, hash: u64, sq: u64) -> Seq<u8> {
    san + seq![45u8] + dec_digits(hash as nat) + seq![45u8] + seq4_digits(sq as nat) + dot_log()
}

/// The name prefix shared by every segment file of one key:
/// sanitized key, hash, and the dashes around the hash.
pub open spec fn key_file_prefix(san: Seq<u8>, hash: u64) -> Seq<u8> {
    san + seq![45u8] + dec_digits(hash as nat) + seq![45u8]
}

/// Whether a file name carries the `.log` suffix: only such files are
/// scanned by key enumeration and compaction.
pub open spec fn name_is_log(name: Seq<u8>) -> bool {
    name.len() >= 4 && name.subrange(name.len() - 4, name.len() as int) == dot_log()
}

/// Whether a file name belongs to a key's enumeration: it carries the
/// key's prefix and parses as a segment file name.
pub open spec fn name_matches_key(name: Seq<u8>, san: Seq<u8>, hash: u64) -> bool {
    let p = key_file_prefix(san, hash);
    name.len() >= p.len() && name.take(p.len() as int) == p && parse_filename(name) is Some
}

/// Decimal digit strings: every byte is a digit, none is a dash, and
/// the denoted value is the number itself.
pub proof fn lemma_dec_digits(n: nat)
    ensures
        dec_digits(n).len() >= 1,
        all_digits(dec_digits(n)),
        digits_value(dec_digits(n)) == n,
    decreases n,
{
    if n < 10 {
        lemma_digits_value_singleton((48 + n) as u8);
        assert(dec_digits(n) =~= seq![(48 + n) as u8]);
    } else {
        lemma_dec_digits(n / 10);
        let d = dec_digits(n / 10);
        let w = d.push((48 + n % 10) as u8);
        assert(w.drop_last() =~= d);
        assert(digits_value(w) == digits_value(d) * 10 + (n % 10));
        assert(n / 10 * 10 + n % 10 == n) by {
            vstd::arithmetic::div_mod::lemma_fundamental_div_mod(n as int, 10);
        }
        assert forall|i: int| 0 <= i < w.len() implies is_dec_digit(#[trigger] w[i]) by {
            if i < d.len() {
                assert(is_dec_digit(d[i]));
            }
        }
    }
}

/// A one-digit string denotes its digit.
pub proof fn lemma_digits_value_singleton(b: u8)
    ensures
        digits_value(seq![b]) == b - 48,
{
    assert(seq![b].drop_last() =~= Seq::<u8>::empty());
    assert(digits_value(Seq::<u8>::empty()) == 0);
    assert(seq![b].last() == b);
}

/// Zero padding: the padded form is all digits and denotes the same
/// number.
pub proof fn lemma_seq4_digits(n: nat)
    ensures
        seq4_digits(n).len() >= 4,
        all_digits(seq4_digits(n)),
        digits_value(seq4_digits(n)) == n,
{
    lemma_dec_digits(n);
    lemma_dec_digits_len(n);
    let d = dec_digits(n);
    let w = seq4_digits(n);
    let k: nat = if n < 10 {
        3nat
    } else if n < 100 {
        2nat
    } else if n < 1000 {
        1nat
    } else {
        0nat
    };
    assert(w =~= pad_zeros(k) + d);
    lemma_digits_value_pad(k, d);
    assert forall|i: int| 0 <= i < w.len() implies is_dec_digit(#[trigger] w[i]) by {
        if i < k {
            assert(w[i] == 48);
        } else {
            assert(w[i] == d[i - k]);
            assert(is_dec_digit(d[i - k]));
        }
    }
}

/// A run of ASCII zero bytes.
pub open spec fn pad_zeros(k: nat) -> Seq<u8> {
    Seq::new(k, |i: int| 48u8)
}

/// Leading zeros do not change the denoted value.
pub proof fn lemma_digits_value_pad(k: nat, s: Seq<u8>)
    ensures
        digits_value(pad_zeros(k) + s) == digits_value(s),
    decreases s.len(),
{
    if s.len() == 0 {
        assert(pad_zeros(k) + s =~= pad_zeros(k));
        lemma_digits_value_zeros(k);
    } else {
        lemma_digits_value_pad(k, s.drop_last());
        assert((pad_zeros(k) + s).drop_last() =~= pad_zeros(k) + s.drop_last());
        assert((pad_zeros(k) + s).last() == s.last());
    }
}

/// A run of zeros denotes zero.
pub proof fn lemma_digits_value_zeros(k: nat)
    ensures
        digits_value(pad_zeros(k)) == 0,
    decreases k,
{
    if k > 0 {
        lemma_digits_value_zeros((k - 1) as nat);
        assert(pad_zeros(k).drop_last() =~= pad_zeros((k - 1) as nat));
        assert(pad_zeros(k).last() == 48);
    }
}

/// A number of at least `10^(k-1)` has at least `k` digits.
pub proof fn lemma_dec_digits_len(n: nat)
    ensures
        dec_digits(n).len() >= 1,
        n >= 10 ==> dec_digits(n).len() >= 2,
        n >= 100 ==> dec_digits(n).len() >= 3,
        n >= 1000 ==> dec_digits(n).len() >= 4,
    decreases n,
{
    if n >= 10 {
        lemma_dec_digits_len(n / 10);
        assert(n >= 100 ==> n / 10 >= 10);
        assert(n >= 1000 ==> n / 10 >= 100);
    }
}

/// The last dash of a string that ends in a dash followed by digits is
/// exactly that dash.
pub proof fn lemma_last_dash_before_digits(x: Seq<u8>, d: Seq<u8>)
    requires
        all_digits(d),
    ensures
        last_dash(x + seq![45u8] + d) == x.len(),
    decreases d.len(),
{
    let w = x + seq![45u8] + d;
    if d.len() == 0 {
        assert(w =~= x + seq![45u8]);
        assert(w.last() == 45);
    } else {
        assert(is_dec_digit(d.last()));
        assert(w.last() == d.last());
        assert(w.last() != 45);
        assert(w.drop_last() =~= x + seq![45u8] + d.drop_last());
        assert(all_digits(d.drop_last())) by {
            assert forall|i: int| 0 <= i < d.drop_last().len() implies is_dec_digit(
                #[trigger] d.drop_last()[i],
            ) by {
                assert(d.drop_last()[i] == d[i]);
            }
        }
        lemma_last_dash_before_digits(x, d.drop_last());
    }
}

/// A generated segment file name parses back to its hash and sequence
/// number, whatever the sanitized key holds.
pub proof fn lemma_filename_round_trip(san: Seq<u8>, hash: u64, sq: u64)
    ensures
        parse_filename(generate_filename(san, hash, sq)) == Some((hash, sq)),
{
    reveal(parse_filename);
    lemma_dec_digits(hash as nat);
    lemma_seq4_digits(sq as nat);
    let dh = dec_digits(hash as nat);
    let d4 = seq4_digits(sq as nat);
    let name = generate_filename(san, hash, sq);
    let stem0 = san + seq![45u8] + dh + seq![45u8] + d4;
    assert(name =~= stem0 + dot_log());
    assert(name.subrange(name.len() - 4, name.len() as int) =~= dot_log());
    let stem = name.take(name.len() - 4);
    assert(stem =~= stem0);
    let x1 = san + seq![45u8] + dh;
    assert(stem =~= x1 + seq![45u8] + d4);
    lemma_last_dash_before_digits(x1, d4);
    let i = last_dash(stem);
    assert(i == x1.len());
    assert(stem.take(i) =~= x1);
    assert(x1 =~= san + seq![45u8] + dh);
    lemma_last_dash_before_digits(san, dh);
    let j = last_dash(stem.take(i));
    assert(j == san.len());
    assert(stem.subrange(j + 1, i) =~= dh);
    assert(stem.subrange(i + 1, stem.len() as int) =~= d4);
    assert(parse_u64_digits(dh) == Some(hash));
    assert(parse_u64_digits(d4) == Some(sq));
}

/// A generated segment file name carries its key's prefix.
pub proof fn lemma_filename_has_prefix(san: Seq<u8>, hash: u64, sq: u64)
    ensures
        name_matches_key(generate_filename(san, hash, sq), san, hash),
{
    lemma_filename_round_trip(san, hash, sq);
    let p = key_file_prefix(san, hash);
    let name = generate_filename(san, hash, sq);
    lemma_seq4_digits(sq as nat);
    assert(name.take(p.len() as int) =~= p);
}

/// Append the decimal digits of `n` to a byte vector.
pub fn push_decimal(out: &mut Vec<u8>, n: u64)
    ensures
        final(out)@ == old(out)@ + dec_digits(n as nat),
    decreases n,
{
    if n < 10 {
        out.push(48 + (n as u8));
        assert(out@ =~= old(out)@ + dec_digits(n as nat));
    } else {
        push_decimal(out, n / 10);
        out.push(48 + ((n % 10) as u8));
        assert(out@ =~= old(out)@ + dec_digits(n as nat));
    }
}

/// Append the decimal digits of `n`, zero-padded to at least four.
pub fn push_seq4(out: &mut Vec<u8>, n: u64)
    ensures
        final(out)@ == old(out)@ + seq4_digits(n as nat),
{
    if n < 10 {
        out.push(48u8);
        out.push(48u8);
        out.push(48u8);
    } else if n < 100 {
        out.push(48u8);
        out.push(48u8);
    } else if n < 1000 {
        out.push(48u8);
    }
    push_decimal(out, n);
    assert(out@ =~= old(out)@ + seq4_digits(n as nat));
}

/// The sanitized key of a displayable form, as file name bytes.
pub fn sanitize_key(key: &str) -> (r: Vec<u8>)
    ensures
        r@ == sanitized_key(key@),
{
    proof {
        reveal(sanitized_key);
    }
    let n = key.unicode_len();
    let mut out: Vec<u8> = Vec::new();
    let mut i: usize = 0;
    while i < n
        invariant
            0 <= i <= n,
            n == key@.len(),
            out@ == (if sanitized(key@.take(i as int)).len() <= 20 {
                sanitized(key@.take(i as int))
            } else {
                sanitized(key@.take(i as int)).take(20)
            }),
            out@.len() <= 20,
        decreases n - i,
    {
        let c = key.get_char(i);
        let u = c as u32;
        let keep = (97 <= u && u <= 122) || (65 <= u && u <= 90) || (48 <= u && u <= 57) || u == 95
            || u == 45;
        proof {
            assert(key@.take(i + 1).drop_last() =~= key@.take(i as int));
            assert(key@.take(i + 1).last() == c);
            assert(keep == keep_char(c));
        }
        let ghost prev = sanitized(key@.take(i as int));
        let ghost cur = sanitized(key@.take(i + 1));
        if keep {
            proof {
                assert(cur =~= prev.push(c as u8));
            }
            if out.len() < 20 {
                let b = (u as u8);
                proof {
                    assert(b == c as u8);
                    assert(prev.len() <= 20);
                    if prev.len() < 20 {
                        assert(out@ == prev);
                    } else {
                        assert(out@ == prev.take(20));
                        assert(prev.take(20).len() == 20);
                    }
                    assert(out@ == prev);
                }
                out.push(b);
                proof {
                    assert(out@ =~= prev.push(c as u8));
                    if cur.len() <= 20 {
                        assert(out@ =~= cur);
                    } else {
                        assert(out@ =~= cur.take(20));
                    }
                }
            } else {
                proof {
                    assert(out@.len() == 20);
                    assert(prev.len() >= 20);
                    assert(cur.len() > 20);
                    assert(cur.take(20) =~= prev.take(20));
                    if prev.len() <= 20 {
                        assert(prev.take(20) =~= prev);
                    }
                }
            }
        } else {
            proof {
                assert(cur =~= prev);
            }
        }
        i = i + 1;
    }
    proof {
        assert(key@.take(n as int) =~= key@);
    }
    out
}

/// Build the canonical segment file name for a sanitized key, a hash,
/// and a sequence number.
pub fn build_filename(san: &Vec<u8>, hash: u64, sq: u64) -> (r: Vec<u8>)
    ensures
        r@ == generate_filename(san@, hash, sq),
{
    let mut v = slice_to_vec(san.as_slice());
    v.push(45u8);
    push_decimal(&mut v, hash);
    v.push(45u8);
    push_seq4(&mut v, sq);
    v.push(46u8);
    v.push(108u8);
    v.push(111u8);
    v.push(103u8);
    assert(v@ =~= generate_filename(san@, hash, sq));
    v
}

/// Build the name prefix shared by a key's segment files.
pub fn build_key_prefix(san: &Vec<u8>, hash: u64) -> (r: Vec<u8>)
    ensures
        r@ == key_file_prefix(san@, hash),
{
    let mut v = slice_to_vec(san.as_slice());
    v.push(45u8);
    push_decimal(&mut v, hash);
    v.push(45u8);
    assert(v@ =~= key_file_prefix(san@, hash));
    v
}

/// Parse a decimal component; `None` when it is empty, has a non-digit,
/// or does not fit in a `u64`.
pub fn parse_decimal(name: &Vec<u8>, from: usize, to: usize) -> (r: Option<u64>)
    requires
        from <= to <= name@.len(),
    ensures
        r == parse_u64_digits(name@.subrange(from as int, to as int)),
{
    let s = Ghost(name@.subrange(from as int, to as int));
    if from == to {
        assert(s@.len() == 0);
        return None;
    }
    let mut acc: u64 = 0;
    let mut i: usize = from;
    while i < to
        invariant
            from <= i <= to <= name@.len(),
            s@ == name@.subrange(from as int, to as int),
            all_digits(name@.subrange(from as int, i as int)),
            acc == digits_value(name@.subrange(from as int, i as int)),
        decreases to - i,
    {
        let b = name[i];
        let ghost pre = name@.subrange(from as int, i as int);
        let ghost cur = name@.subrange(from as int, i + 1);
        proof {
            assert(cur.drop_last() =~= pre);
            assert(cur.last() == name@[i as int]);
        }
        if b < 48 || b > 57 {
            proof {
                assert(!is_dec_digit(s@[i - from]));
            }
            return None;
        }
        let d = (b - 48) as u64;
        let step = match acc.checked_mul(10) {
            Some(m) => m.checked_add(d),
            None => None,
        };
        match step {
            Some(v) => {
                acc = v;
                proof {
                    assert(all_digits(cur)) by {
                        assert forall|k: int| 0 <= k < cur.len() implies is_dec_digit(
                            #[trigger] cur[k],
                        ) by {
                            if k < cur.len() - 1 {
                                assert(cur[k] == pre[k]);
                            }
                        }
                    }
                    assert(digits_value(cur) == digits_value(pre) * 10 + (b - 48));
                }
            },
            None => {
                proof {
                    assert(digits_value(cur) == digits_value(pre) * 10 + (b - 48));
                    assert(digits_value(cur) > u64::MAX);
                    lemma_digits_value_grows(name@, from as int, i + 1, to as int);
                    if all_digits(s@) {
                        assert(digits_value(s@) >= digits_value(cur));
                    }
                }
                return None;
            },
        }
        i = i + 1;
    }
    proof {
        assert(name@.subrange(from as int, i as int) =~= s@);
    }
    Some(acc)
}

/// Extending a digit string to the right can only grow its value.
pub proof fn lemma_digits_value_grows(name: Seq<u8>, from: int, mid: int, to: int)
    requires
        0 <= from <= mid <= to <= name.len(),
        digits_value(name.subrange(from, mid)) >= 0,
    ensures
        digits_value(name.subrange(from, to)) >= digits_value(name.subrange(from, mid)) || !all_digits(
            name.subrange(from, to),
        ),
    decreases to - mid,
{
    if mid == to {
        assert(name.subrange(from, to) =~= name.subrange(from, mid));
    } else {
        let w = name.subrange(from, mid + 1);
        let p = name.subrange(from, mid);
        assert(w.drop_last() =~= p);
        if all_digits(name.subrange(from, to)) {
            assert(is_dec_digit(name.subrange(from, to)[mid - from]));
            assert(w.last() == name[mid]);
            assert(digits_value(w) == digits_value(p) * 10 + (name[mid] - 48));
            assert(digits_value(w) >= digits_value(p));
            lemma_digits_value_grows(name, from, mid + 1, to);
        }
    }
}

/// The index just past the last dash strictly before `end`, or `None`.
pub fn find_last_dash(name: &Vec<u8>, end: usize) -> (r: Option<usize>)
    requires
        end <= name@.len(),
    ensures
        match r {
            Some(k) => k < end && last_dash(name@.take(end as int)) == k as int,
            None => last_dash(name@.take(end as int)) == -1,
        },
{
    let mut i: usize = end;
    while i > 0
        invariant
            0 <= i <= end <= name@.len(),
            last_dash(name@.take(end as int)) == last_dash(name@.take(i as int)),
        decreases i,
    {
        let ghost cur = name@.take(i as int);
        proof {
            assert(cur.drop_last() =~= name@.take(i - 1));
            assert(cur.last() == name@[i - 1]);
        }
        if name[i - 1] == 45u8 {
            proof {
                assert(last_dash(cur) == i - 1);
            }
            return Some(i - 1);
        }
        i = i - 1;
    }
    proof {
        assert(name@.take(0) =~= Seq::<u8>::empty());
    }
    None
}

/// Parse a segment file name into its hash and sequence number.
pub fn try_parse_filename(name: &Vec<u8>) -> (r: Option<(u64, u64)>)
    ensures
        r == parse_filename(name@),
{
    proof {
        reveal(parse_filename);
    }
    let n = name.len();
    if n < 4 {
        return None;
    }
    if !(name[n - 4] == 46u8 && name[n - 3] == 108u8 && name[n - 2] == 111u8 && name[n - 1] == 103u8) {
        proof {
            let suf = name@.subrange(n - 4, n as int);
            if suf == dot_log() {
                assert(name@[n - 4] == dot_log()[0]);
                assert(name@[n - 3] == dot_log()[1]);
                assert(name@[n - 2] == dot_log()[2]);
                assert(name@[n - 1] == dot_log()[3]);
            }
        }
        return None;
    }
    assert(name@.subrange(n - 4, n as int) =~= dot_log());
    let stem_len = n - 4;
    let ghost stem = name@.take(stem_len as int);
    proof {
        assert(stem =~= name@.take(name@.len() - 4));
    }
    let i = match find_last_dash(name, stem_len) {
        Some(i) => i,
        None => {
            return None;
        },
    };
    proof {
        assert(name@.take(i as int) =~= stem.take(i as int));
    }
    let j = match find_last_dash(name, i) {
        Some(j) => j,
        None => {
            return None;
        },
    };
    proof {
        assert(name@.subrange(j + 1, i as int) =~= stem.subrange(j + 1, i as int));
        assert(name@.subrange(i + 1, stem_len as int) =~= stem.subrange(i + 1, stem.len() as int));
    }
    let hash = parse_decimal(name, j + 1, i);
    let sq = parse_decimal(name, i + 1, stem_len);
    match (hash, sq) {
        (Some(h), Some(q)) => Some((h, q)),
        _ => None,
    }
}

/// Whether a file name belongs to a key's enumeration.
pub fn name_matches(name: &Vec<u8>, prefix: &Vec<u8>) -> (r: bool)
    ensures
        r == (name@.len() >= prefix@.len() && name@.take(prefix@.len() as int) == prefix@
            && parse_filename(name@) is Some),
{
    if name.len() < prefix.len() {
        return false;
    }
    let head = slice_subrange(name.as_slice(), 0, prefix.len());
    proof {
        assert(name@.subrange(0, prefix@.len() as int) =~= name@.take(prefix@.len() as int));
    }
    if !crate::codec::bytes_equal(head, prefix.as_slice()) {
        return false;
    }
    match try_parse_filename(name) {
        Some(_) => true,
        None => false,
    }
}

} // verus!
