//! Identifiers for subscribers and extension instances.
//!
//! An identifier's text is eight upper-case hex digits of the Unix time in
//! seconds at which it was made, then twelve random ASCII letters and digits;
//! the 20 characters stand in groups of four joined by dashes, 24
//! characters in all: `66F3-A21B-abcd-efGH-IJ12` was made at second
//! `0x66F3A21B`. The time digits hold the seconds modulo 2^32, which is the
//! seconds themselves until the year 2106. Two identifiers are equal when
//! their texts are; they are ordered by time first, then by text.
use rand::Rng;
use vstd::prelude::*;

verus! {

/// Hex digits that hold the creation time.
pub const TIME_DIGITS: usize = 8;

/// Random characters that follow the time digits.
pub const RANDOM_CHARS: usize = 12;

/// Length of an identifier's text: 20 characters and four dashes.
pub const UID_LEN: usize = 24;

pub open spec fn is_alnum(c: char) -> bool {
    ('0' <= c && c <= '9') || ('A' <= c && c <= 'Z') || ('a' <= c && c <= 'z')
}

pub open spec fn is_upper_hex(c: char) -> bool {
    ('0' <= c && c <= '9') || ('A' <= c && c <= 'F')
}

/// The upper-case hex digit of `d < 16`.
pub open spec fn hex_digit(d: nat) -> char {
    if d < 10 {
        (d + 48) as char
    } else {
        (d + 55) as char
    }
}

/// The value of an upper-case hex digit.
pub open spec fn hex_digit_value(c: char) -> nat {
    if c <= '9' {
        (c as int - 48) as nat
    } else {
        (c as int - 55) as nat
    }
}

/// The last `n` hex digits of `v`, most significant first.
pub open spec fn hex_digits(v: nat, n: nat) -> Seq<char>
    decreases n,
{
    if n == 0 {
        Seq::empty()
    } else {
        hex_digits(v / 16, (n - 1) as nat).push(hex_digit(v % 16))
    }
}

/// The number that the hex digits `s` write, most significant first.
pub open spec fn hex_value(s: Seq<char>) -> nat
    decreases s.len(),
{
    if s.len() == 0 {
        0
    } else {
        hex_value(s.drop_last()) * 16 + hex_digit_value(s.last())
    }
}

pub open spec fn pow16(n: nat) -> nat
    decreases n,
{
    if n == 0 {
        1
    } else {
        16 * pow16((n - 1) as nat)
    }
}

/// Character `k` of the text that groups `payload` by four: a dash at every
/// fifth place, the payload's characters in order elsewhere.
pub open spec fn grouped_char(payload: Seq<char>, k: int) -> char {
    if k % 5 == 4 {
        '-'
    } else {
        payload[k - k / 5]
    }
}

/// The text of the identifier made at `secs` with the random part `random`.
pub open spec fn uid_text(secs: nat, random: Seq<char>) -> Seq<char> {
    Seq::new(UID_LEN as nat, |k: int| grouped_char(hex_digits(secs, 8) + random, k))
}

/// What place `k` of an identifier's text holds: a dash, a time digit or a
/// random character.
pub open spec fn valid_at(s: Seq<char>, k: int) -> bool {
    if k % 5 == 4 {
        s[k] == '-'
    } else if k < 9 {
        is_upper_hex(s[k])
    } else {
        is_alnum(s[k])
    }
}

/// `s` is the text of an identifier.
pub open spec fn is_uid_text(s: Seq<char>) -> bool {
    &&& s.len() == UID_LEN
    &&& forall|k: int| 0 <= k < UID_LEN ==> #[trigger] valid_at(s, k)
}

/// The identifier that a text stands for, if any.
pub open spec fn parse_uid(s: Seq<char>) -> Option<Seq<char>> {
    if is_uid_text(s) {
        Some(s)
    } else {
        None
    }
}

/// The eight time digits of an identifier's text.
pub open spec fn time_digits(s: Seq<char>) -> Seq<char> {
    Seq::new(TIME_DIGITS as nat, |p: int| s[p + p / 4])
}

/// The creation time, in Unix seconds, that an identifier's text records.
pub open spec fn timestamp_of(s: Seq<char>) -> nat {
    hex_value(time_digits(s))
}

/// Relies on std's `SystemTime::elapsed`, measured from the Unix epoch: the
/// whole seconds since then, or `None` where the clock stands before it.
#[verifier::external_body]
fn unix_seconds() -> (r: Option<u64>) {
    std::time::SystemTime::UNIX_EPOCH.elapsed().ok().map(|d| d.as_secs())
}

/// Relies on rand's `Alphanumeric` distribution, drawn from `thread_rng`:
/// `n` characters, each an ASCII letter or digit.
#[verifier::external_body]
fn random_alphanumeric(n: usize) -> (r: Vec<char>)
    ensures
        r@.len() == n,
        forall|i: int| 0 <= i < n ==> is_alnum(#[trigger] r@[i]),
{
    rand::thread_rng().sample_iter(&rand::distributions::Alphanumeric).take(n).map(char::from).collect()
}

/// Relies on std's `FromIterator<&char>` for `String`: the characters in order.
#[verifier::external_body]
fn string_from_chars(v: &Vec<char>) -> (r: String)
    ensures
        r@ == v@,
{
    v.iter().collect()
}

fn hex_char(d: u64) -> (c: char)
    requires
        d < 16,
    ensures
        c == hex_digit(d as nat),
{
    if d < 10 {
        ((d as u8) + 48u8) as char
    } else {
        ((d as u8) + 55u8) as char
    }
}

/// Appends the last `n` hex digits of `v`.
fn push_hex(v: u64, n: usize, out: &mut Vec<char>)
    ensures
        final(out)@ == old(out)@ + hex_digits(v as nat, n as nat),
    decreases n,
{
    if n > 0 {
        push_hex(v / 16, n - 1, out);
        out.push(hex_char(v % 16));
    }
}

proof fn lemma_hex_digits_are_hex(v: nat, n: nat)
    ensures
        hex_digits(v, n).len() == n,
        forall|i: int| 0 <= i < n ==> is_upper_hex(#[trigger] hex_digits(v, n)[i]),
    decreases n,
{
    if n > 0 {
        lemma_hex_digits_are_hex(v / 16, (n - 1) as nat);
        let d = v % 16;
        assert(is_upper_hex(hex_digit(d)));
        assert forall|i: int| 0 <= i < n implies is_upper_hex(#[trigger] hex_digits(v, n)[i]) by {
            if i < n - 1 {
                assert(hex_digits(v, n)[i] == hex_digits(v / 16, (n - 1) as nat)[i]);
            }
        }
    }
}

/// The text of an identifier made at `secs` with a random part of twelve
/// letters and digits is well formed.
pub proof fn lemma_uid_text_is_valid(secs: nat, random: Seq<char>)
    requires
        random.len() == RANDOM_CHARS,
        forall|i: int| 0 <= i < RANDOM_CHARS ==> is_alnum(#[trigger] random[i]),
    ensures
        is_uid_text(uid_text(secs, random)),
{
    lemma_hex_digits_are_hex(secs, 8);
    let payload = hex_digits(secs, 8) + random;
    let s = uid_text(secs, random);
    assert forall|k: int| 0 <= k < UID_LEN implies #[trigger] valid_at(s, k) by {
        if k % 5 != 4 {
            let p = k - k / 5;
            if k < 9 {
                assert(p < 8);
                assert(payload[p] == hex_digits(secs, 8)[p]);
            } else {
                assert(8 <= p < 20);
                assert(payload[p] == random[p - 8]);
            }
        }
    }
}

proof fn lemma_pow16_8()
    ensures
        pow16(8) == 0x1_0000_0000,
{
    reveal_with_fuel(pow16, 9);
}

proof fn lemma_pow16_monotone(a: nat, b: nat)
    requires
        a <= b,
    ensures
        pow16(a) <= pow16(b),
    decreases b - a,
{
    if a < b {
        lemma_pow16_monotone(a, (b - 1) as nat);
        lemma_pow16_step((b - 1) as nat);
    }
}

proof fn lemma_pow16_step(n: nat)
    ensures
        pow16(n + 1) == 16 * pow16(n),
        pow16(n) > 0,
    decreases n,
{
    if n > 0 {
        lemma_pow16_step((n - 1) as nat);
    }
}

/// Reading back the last `n` hex digits of `v` gives `v` modulo `16^n`.
proof fn lemma_hex_round_trip(v: nat, n: nat)
    ensures
        hex_value(hex_digits(v, n)) == v % pow16(n),
    decreases n,
{
    lemma_hex_digits_are_hex(v, n);
    if n == 0 {
        assert(v % 1 == 0);
    } else {
        let m = (n - 1) as nat;
        lemma_hex_round_trip(v / 16, m);
        lemma_pow16_step(m);
        let s = hex_digits(v, n);
        assert(s.drop_last() == hex_digits(v / 16, m));
        assert(s.last() == hex_digit(v % 16));
        let d = v % 16;
        assert(hex_digit_value(hex_digit(d)) == d);
        // v % (16 * p) == 16 * ((v / 16) % p) + v % 16
        vstd::arithmetic::div_mod::lemma_breakdown(v as int, 16, pow16(m) as int);
        assert(pow16(n) == 16 * pow16(m));
    }
}

/// An identifier made at `secs` records `secs` modulo 2^32: reading its time
/// digits back gives the seconds it was made with, for any time before 2106.
pub proof fn lemma_timestamp_round_trip(secs: u64, random: Seq<char>)
    ensures
        timestamp_of(uid_text(secs as nat, random)) == secs % 0x1_0000_0000,
{
    let digits = hex_digits(secs as nat, 8);
    lemma_hex_digits_are_hex(secs as nat, 8);
    let t = time_digits(uid_text(secs as nat, random));
    assert forall|p: int| 0 <= p < 8 implies t[p] == digits[p] by {
        let k = p + p / 4;
        assert(k % 5 != 4 && k - k / 5 == p && k < 24);
    }
    assert(t =~= digits);
    lemma_hex_round_trip(secs as nat, 8);
    lemma_pow16_8();
}

/// Round trip of an identifier made at `secs` with a random part of twelve
/// letters and digits: its text parses back to itself, and the time it
/// records is `secs` modulo 2^32.
pub proof fn lemma_uid_round_trip(secs: u64, random: Seq<char>)
    requires
        random.len() == RANDOM_CHARS,
        forall|i: int| 0 <= i < RANDOM_CHARS ==> is_alnum(#[trigger] random[i]),
    ensures
        parse_uid(uid_text(secs as nat, random)) == Some(uid_text(secs as nat, random)),
        timestamp_of(uid_text(secs as nat, random)) == secs % 0x1_0000_0000,
{
    lemma_uid_text_is_valid(secs as nat, random);
    lemma_timestamp_round_trip(secs, random);
}

/// `a` comes before `b` in character order: at the first place where the
/// two differ, `a` has the smaller character.
pub open spec fn text_before(a: Seq<char>, b: Seq<char>) -> bool {
    exists|i: int| 0 <= i < a.len() && i < b.len() && a.take(i) == b.take(i) && (#[trigger] a[i]) < b[i]
}

/// The order of identifiers: by the time they record, then by their text.
pub open spec fn uid_before(a: Seq<char>, b: Seq<char>) -> bool {
    timestamp_of(a) < timestamp_of(b) || (timestamp_of(a) == timestamp_of(b) && text_before(a, b))
}

/// The order of identifiers follows creation time: one made at an earlier
/// second (before 2106) comes before one made later, whatever their random
/// parts.
pub proof fn lemma_order_follows_creation(secs1: u64, random1: Seq<char>, secs2: u64, random2: Seq<char>)
    requires
        secs1 < secs2 < 0x1_0000_0000,
    ensures
        uid_before(uid_text(secs1 as nat, random1), uid_text(secs2 as nat, random2)),
{
    lemma_timestamp_round_trip(secs1, random1);
    lemma_timestamp_round_trip(secs2, random2);
}

/// Two different texts of one length differ first at some place.
proof fn lemma_first_difference(a: Seq<char>, b: Seq<char>)
    requires
        a.len() == b.len(),
        a != b,
    ensures
        exists|i: int| 0 <= i < a.len() && a.take(i) == b.take(i) && (#[trigger] a[i]) != b[i],
    decreases a.len(),
{
    if a.len() == 0 {
        assert(a =~= b);
    } else {
        let n = a.len() - 1;
        if a.drop_last() == b.drop_last() {
            assert(a.take(n) == a.drop_last() && b.take(n) == b.drop_last());
            if a[n] == b[n] {
                assert(a =~= b) by {
                    assert forall|j: int| 0 <= j < a.len() implies a[j] == b[j] by {
                        if j < n {
                            assert(a.drop_last()[j] == b.drop_last()[j]);
                        }
                    }
                }
            }
            assert(a[n] != b[n]);
        } else {
            lemma_first_difference(a.drop_last(), b.drop_last());
            let i = choose|i: int|
                0 <= i < a.drop_last().len() && a.drop_last().take(i) == b.drop_last().take(i) && (
                #[trigger] a.drop_last()[i]) != b.drop_last()[i];
            assert(a.take(i) =~= a.drop_last().take(i));
            assert(b.take(i) =~= b.drop_last().take(i));
            assert(a[i] == a.drop_last()[i] && b[i] == b.drop_last()[i]);
        }
    }
}

/// The order of identifiers is total: of two different identifier texts,
/// one comes before the other.
pub proof fn lemma_order_total(a: Seq<char>, b: Seq<char>)
    requires
        is_uid_text(a),
        is_uid_text(b),
        a != b,
    ensures
        uid_before(a, b) || uid_before(b, a),
{
    if timestamp_of(a) == timestamp_of(b) {
        lemma_first_difference(a, b);
        let i = choose|i: int| 0 <= i < a.len() && a.take(i) == b.take(i) && (#[trigger] a[i]) != b[i];
        if a[i] < b[i] {
            assert(text_before(a, b));
        } else {
            assert(b[i] < a[i]);
            assert(text_before(b, a));
        }
    }
}

/// A subscriber or extension-instance identifier.
#[derive(Debug)]
pub struct Uid {
    text: String,
}

impl View for Uid {
    type V = Seq<char>;

    closed spec fn view(&self) -> Seq<char> {
        self.text@
    }
}

impl Uid {
    #[verifier::type_invariant]
    spec fn inv(self) -> bool {
        is_uid_text(self.text@)
    }

    /// A fresh identifier: the time now and a new random part.
    pub fn new() -> (r: Uid)
        ensures
            is_uid_text(r@),
            exists|secs: u64, random: Seq<char>|
                {
                    &&& random.len() == RANDOM_CHARS
                    &&& forall|i: int| 0 <= i < RANDOM_CHARS ==> is_alnum(#[trigger] random[i])
                    &&& r@ == #[trigger] uid_text(secs as nat, random)
                },
    {
        let secs = match unix_seconds() {
            Some(s) => s,
            None => 0,
        };
        let random = random_alphanumeric(RANDOM_CHARS);
        Uid::from_parts(secs, &random)
    }

    /// The identifier made at `secs` with the random part `random`.
    pub fn from_parts(secs: u64, random: &Vec<char>) -> (r: Uid)
        requires
            random@.len() == RANDOM_CHARS,
            forall|i: int| 0 <= i < RANDOM_CHARS ==> is_alnum(#[trigger] random@[i]),
        ensures
            r@ == uid_text(secs as nat, random@),
            is_uid_text(r@),
    {
        let mut payload: Vec<char> = Vec::new();
        push_hex(secs, TIME_DIGITS, &mut payload);
        let mut i: usize = 0;
        while i < RANDOM_CHARS
            invariant
                i <= RANDOM_CHARS,
                random@.len() == RANDOM_CHARS,
                payload@ == hex_digits(secs as nat, 8) + random@.take(i as int),
            decreases RANDOM_CHARS - i,
        {
            payload.push(random[i]);
            assert(random@.take(i as int + 1) == random@.take(i as int).push(random@[i as int]));
            i = i + 1;
        }
        assert(random@.take(RANDOM_CHARS as int) == random@);
        let ghost full = hex_digits(secs as nat, 8) + random@;
        proof {
            lemma_hex_digits_are_hex(secs as nat, 8);
        }
        let mut chars: Vec<char> = Vec::new();
        let mut k: usize = 0;
        while k < UID_LEN
            invariant
                k <= UID_LEN,
                payload@ == full,
                full.len() == 20,
                chars@.len() == k,
                forall|j: int| 0 <= j < k ==> chars@[j] == grouped_char(full, j),
            decreases UID_LEN - k,
        {
            if k % 5 == 4 {
                chars.push('-');
            } else {
                chars.push(payload[k - k / 5]);
            }
            k = k + 1;
        }
        assert(chars@ == uid_text(secs as nat, random@));
        proof {
            lemma_uid_text_is_valid(secs as nat, random@);
        }
        Uid { text: string_from_chars(&chars) }
    }

    /// The identifier's text.
    pub fn to_string(&self) -> (r: String)
        ensures
            r@ == self@,
            is_uid_text(r@),
    {
        proof {
            use_type_invariant(self);
        }
        self.text.clone()
    }

    /// The identifier whose text is `s`, or `None` where `s` is not the text
    /// of an identifier.
    pub fn from_string(s: &str) -> (r: Option<Uid>)
        ensures
            r matches Some(u) ==> u@ == s@,
            r is Some <==> is_uid_text(s@),
    {
        if s.unicode_len() != UID_LEN {
            return None;
        }
        let mut k: usize = 0;
        while k < UID_LEN
            invariant
                k <= UID_LEN,
                s@.len() == UID_LEN,
                forall|j: int| 0 <= j < k ==> #[trigger] valid_at(s@, j),
            decreases UID_LEN - k,
        {
            let c = s.get_char(k);
            let ok = if k % 5 == 4 {
                c == '-'
            } else if k < 9 {
                ('0' <= c && c <= '9') || ('A' <= c && c <= 'F')
            } else {
                ('0' <= c && c <= '9') || ('A' <= c && c <= 'Z') || ('a' <= c && c <= 'z')
            };
            if !ok {
                assert(!valid_at(s@, k as int));
                return None;
            }
            k = k + 1;
        }
        Some(Uid { text: s.to_owned() })
    }

    /// The creation time, in Unix seconds, that the identifier records.
    pub fn get_timestamp(&self) -> (r: u64)
        ensures
            r == timestamp_of(self@),
    {
        proof {
            use_type_invariant(self);
        }
        let mut acc: u64 = 0;
        let mut p: usize = 0;
        let ghost digits = time_digits(self@);
        while p < TIME_DIGITS
            invariant
                p <= TIME_DIGITS,
                is_uid_text(self.text@),
                digits == time_digits(self@),
                acc == hex_value(digits.take(p as int)),
                acc < pow16(p as nat),
            decreases TIME_DIGITS - p,
        {
            let k = p + p / 4;
            let c = self.text.as_str().get_char(k);
            assert(valid_at(self@, k as int));
            assert(c == digits[p as int]);
            let d: u64 = if c <= '9' {
                (c as u32 - 48) as u64
            } else {
                (c as u32 - 55) as u64
            };
            proof {
                lemma_pow16_step(p as nat);
                lemma_pow16_8();
                assert(pow16(p as nat + 1) <= pow16(8)) by {
                    lemma_pow16_monotone(p as nat + 1, 8);
                }
                assert(digits.take(p as int + 1).drop_last() =~= digits.take(p as int));
                assert(digits.take(p as int + 1).last() == c);
            }
            acc = acc * 16 + d;
            p = p + 1;
        }
        assert(digits.take(8) =~= digits);
        acc
    }

    /// Whether this identifier comes before `other`: it records an earlier
    /// time, or the same time and a text that comes first in character
    /// order.
    pub fn precedes(&self, other: &Uid) -> (r: bool)
        ensures
            r == uid_before(self@, other@),
    {
        proof {
            use_type_invariant(self);
            use_type_invariant(other);
        }
        let ta = self.get_timestamp();
        let tb = other.get_timestamp();
        if ta != tb {
            return ta < tb;
        }
        let a = self.text.as_str();
        let b = other.text.as_str();
        let ghost sa = self@;
        let ghost sb = other@;
        let mut i: usize = 0;
        while i < UID_LEN
            invariant
                i <= UID_LEN,
                a@ == sa,
                b@ == sb,
                sa.len() == UID_LEN,
                sb.len() == UID_LEN,
                sa.take(i as int) =~= sb.take(i as int),
                timestamp_of(sa) == timestamp_of(sb),
                sa == self@,
                sb == other@,
            decreases UID_LEN - i,
        {
            let ca = a.get_char(i);
            let cb = b.get_char(i);
            if ca != cb {
                proof {
                    assert(ca == sa[i as int] && cb == sb[i as int]);
                    if ca < cb {
                        assert(sa.take(i as int) == sb.take(i as int));
                        assert(0 <= i < sa.len() && i < sb.len() && sa.take(i as int) == sb.take(i as int)
                            && sa[i as int] < sb[i as int]);
                        assert(text_before(sa, sb));
                    } else {
                        assert forall|j: int|
                            0 <= j < sa.len() && j < sb.len() && sa.take(j) == sb.take(j) implies !((
                            #[trigger] sa[j]) < sb[j]) by {
                            if j < i {
                                assert(sa.take(i as int)[j] == sb.take(i as int)[j]);
                            } else if j > i {
                                assert(sa.take(j)[i as int] == sb.take(j)[i as int]);
                            }
                        }
                    }
                }
                return ca < cb;
            }
            assert(sa.take(i as int + 1) =~= sb.take(i as int + 1)) by {
                assert forall|j: int| 0 <= j < i + 1 implies #[trigger] sa.take(i as int + 1)[j] == sb.take(
                    i as int + 1,
                )[j] by {
                    if j < i {
                        assert(sa.take(i as int)[j] == sb.take(i as int)[j]);
                    }
                }
            }
            i = i + 1;
        }
        proof {
            assert forall|j: int|
                0 <= j < sa.len() && j < sb.len() && sa.take(j) == sb.take(j) implies !((#[trigger] sa[j])
                < sb[j]) by {
                assert(sa.take(UID_LEN as int)[j] == sb.take(UID_LEN as int)[j]);
            }
        }
        false
    }

    /// Whether two identifiers have the same text.
    pub fn equals(&self, other: &Uid) -> (r: bool)
        ensures
            r == (self@ == other@),
    {
        self.text == other.text
    }

    /// A copy of the identifier.
    pub fn duplicate(&self) -> (r: Uid)
        ensures
            r@ == self@,
            is_uid_text(r@),
    {
        proof {
            use_type_invariant(self);
        }
        Uid { text: self.text.clone() }
    }
}

} // verus!
