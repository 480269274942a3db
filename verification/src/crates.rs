use vstd::prelude::*;
use vstd::string::StrSliceExecFns;
use vstd::string::StringExecFns;

verus! {

/// A resolved package version, reduced to its numeric components.
#[derive(Clone, Copy, Debug, PartialEq, Eq, Structural, PartialOrd, Ord, Hash)]
pub struct Version {
    pub major: u64,
    pub minor: u64,
    pub patch: u64,
}

/// A normalized version as used in vendored third-party crate paths.
///
/// A crate version is identified by the major version, if it's at least 1,
/// or the minor version, if the major version is 0. There is a many-to-one
/// relationship between crate versions and epochs.
#[derive(Clone, Copy, Debug, PartialEq, Eq, Structural, PartialOrd, Ord, Hash)]
pub enum Epoch {
    /// Epoch with major version 0; the field is the minor version, never 0.
    Minor(u64),
    /// Epoch with major version at least 1; the field is never 0.
    Major(u64),
}

/// Whether `c` is a decimal digit.
pub open spec fn is_digit(c: char) -> bool {
    48 <= c as u32 && c as u32 <= 57
}

/// The numeric value of a decimal digit character.
pub open spec fn digit_val(c: char) -> nat {
    (c as u32 - 48) as nat
}

/// The decimal digit character for a value below ten.
pub open spec fn digit_char(d: nat) -> char {
    if d == 0 {
        '0'
    } else if d == 1 {
        '1'
    } else if d == 2 {
        '2'
    } else if d == 3 {
        '3'
    } else if d == 4 {
        '4'
    } else if d == 5 {
        '5'
    } else if d == 6 {
        '6'
    } else if d == 7 {
        '7'
    } else if d == 8 {
        '8'
    } else {
        '9'
    }
}

/// The canonical decimal rendering of a natural number, most significant
/// digit first and without redundant leading zeros.
pub open spec fn dec_str(n: nat) -> Seq<char>
    decreases n,
{
    if n < 10 {
        seq![digit_char(n)]
    } else {
        dec_str(n / 10).push(digit_char(n % 10))
    }
}

/// Every character of the sequence is a decimal digit.
pub open spec fn all_digits(s: Seq<char>) -> bool {
    forall|i: int| 0 <= i < s.len() ==> is_digit(#[trigger] s[i])
}

/// The numeric value of a sequence of decimal digits.
pub open spec fn dec_val(s: Seq<char>) -> nat
    decreases s.len(),
{
    if s.len() == 0 {
        0
    } else {
        dec_val(s.drop_last()) * 10 + digit_val(s.last())
    }
}

/// The digits of a numeral after the optional leading plus sign.
pub open spec fn numeral_body(s: Seq<char>) -> Seq<char> {
    if s.len() > 0 && s[0] == '+' {
        s.drop_first()
    } else {
        s
    }
}

/// Whether `s` is a numeral that parses as a `u64`: an optional plus sign,
/// then at least one digit, with a value that fits.
pub open spec fn is_u64_numeral(s: Seq<char>) -> bool {
    let b = numeral_body(s);
    b.len() >= 1 && all_digits(b) && dec_val(b) <= u64::MAX
}

/// The value of a `u64` numeral.
pub open spec fn numeral_val(s: Seq<char>) -> nat {
    dec_val(numeral_body(s))
}

/// The canonical decimal rendering consists of digits, has the value it
/// renders, and never starts with a redundant zero.
pub proof fn lemma_dec_str(n: nat)
    ensures
        dec_str(n).len() >= 1,
        all_digits(dec_str(n)),
        dec_val(dec_str(n)) == n,
        n >= 1 ==> dec_str(n)[0] != '0',
    decreases n,
{
    if n < 10 {
        assert(dec_val(seq![digit_char(n)]) == digit_val(digit_char(n))) by {
            assert(seq![digit_char(n)].drop_last() =~= Seq::<char>::empty());
            assert(dec_val(Seq::<char>::empty()) == 0);
            assert(seq![digit_char(n)].last() == digit_char(n));
        }
    } else {
        lemma_dec_str(n / 10);
        let prefix = dec_str(n / 10);
        let whole = prefix.push(digit_char(n % 10));
        assert(whole.drop_last() =~= prefix);
        assert(whole.last() == digit_char(n % 10));
        assert(dec_val(whole) == dec_val(prefix) * 10 + digit_val(digit_char(n % 10)));
        assert(all_digits(whole)) by {
            assert forall|i: int| 0 <= i < whole.len() implies is_digit(#[trigger] whole[i]) by {
                if i < prefix.len() {
                    assert(whole[i] == prefix[i]);
                } else {
                    assert(whole[i] == digit_char(n % 10));
                }
            }
        }
        assert(whole[0] == prefix[0]);
    }
}

/// The value of a digit sequence never shrinks as digits are appended.
pub proof fn lemma_dec_val_prefix_le(s: Seq<char>, k: int)
    requires
        0 <= k <= s.len(),
    ensures
        dec_val(s.take(k)) <= dec_val(s),
    decreases s.len() - k,
{
    if k < s.len() {
        lemma_dec_val_prefix_le(s, k + 1);
        assert(s.take(k + 1).drop_last() =~= s.take(k));
        assert(dec_val(s.take(k + 1)) == dec_val(s.take(k)) * 10 + digit_val(s.take(k + 1).last()));
    } else {
        assert(s.take(k) =~= s);
    }
}

/// The first index at which `c` occurs in `s`, or -1 if it never does.
pub open spec fn find_char(s: Seq<char>, c: char) -> int
    decreases s.len(),
{
    if s.len() == 0 {
        -1
    } else if s[0] == c {
        0
    } else {
        let r = find_char(s.drop_first(), c);
        if r < 0 {
            -1
        } else {
            r + 1
        }
    }
}

/// `find_char` finds the first occurrence, if there is one.
pub proof fn lemma_find_char(s: Seq<char>, c: char)
    ensures
        find_char(s, c) == -1 ==> forall|k: int| 0 <= k < s.len() ==> s[k] != c,
        find_char(s, c) != -1 ==> 0 <= find_char(s, c) < s.len() && s[find_char(s, c)] == c && (
        forall|k: int| 0 <= k < find_char(s, c) ==> s[k] != c),
    decreases s.len(),
{
    if s.len() > 0 && s[0] != c {
        lemma_find_char(s.drop_first(), c);
        let r = find_char(s.drop_first(), c);
        if r == -1 {
            assert forall|k: int| 0 <= k < s.len() implies s[k] != c by {
                if k > 0 {
                    assert(s.drop_first()[k - 1] == s[k]);
                }
            }
        } else {
            assert(s.drop_first()[r] == s[r + 1]);
            assert forall|k: int| 0 <= k < r + 1 implies s[k] != c by {
                if k > 0 {
                    assert(s.drop_first()[k - 1] == s[k]);
                }
            }
        }
    }
}

/// A first occurrence characterizes `find_char` uniquely.
pub proof fn lemma_find_char_unique(s: Seq<char>, c: char, i: int)
    requires
        0 <= i < s.len(),
        s[i] == c,
        forall|k: int| 0 <= k < i ==> s[k] != c,
    ensures
        find_char(s, c) == i,
{
    lemma_find_char(s, c);
    let r = find_char(s, c);
    if r == -1 {
        assert(s[i] != c);
    } else {
        if r < i {
            assert(s[r] != c);
        }
        if i < r {
            assert(s[i] != c);
        }
    }
}

/// Errors from parsing an epoch string.
#[derive(Clone, Copy, Debug, PartialEq, Eq, Structural)]
pub enum EpochParseError {
    /// An integer could not be parsed where expected.
    InvalidInt,
    /// The string was missing the `v` prefix, was missing a separator, or
    /// had a tail after the last integer.
    BadFormat,
    /// The parts named an invalid combination of versions, such as a zero
    /// epoch or both a nonzero major and a minor version.
    BadVersion,
}

/// Whether the tail of an epoch string contains a stray `v` before its last
/// character.
pub open spec fn has_inner_v(tail: Seq<char>) -> bool {
    exists|j: int| 0 <= j < tail.len() - 1 && tail[j] == 'v'
}

/// The parse of an epoch string: exactly `v{major}` or `v0_{minor}` is
/// accepted, numerals being anything `u64` parsing takes; a missing prefix,
/// a stray `v`, or a third part is a format error; a numeral that does not
/// parse is an integer error; a zero epoch, or a nonzero major together with
/// a minor part, is a version error.
pub open spec fn parse_epoch(s: Seq<char>) -> Result<Epoch, EpochParseError> {
    if s.len() < 2 || s[0] != 'v' {
        Err(EpochParseError::BadFormat)
    } else {
        let tail = s.skip(1);
        if has_inner_v(tail) {
            Err(EpochParseError::BadFormat)
        } else {
            let p = find_char(tail, '_');
            if p < 0 {
                if !is_u64_numeral(tail) {
                    Err(EpochParseError::InvalidInt)
                } else if numeral_val(tail) == 0 {
                    Err(EpochParseError::BadVersion)
                } else {
                    Ok(Epoch::Major(numeral_val(tail) as u64))
                }
            } else {
                let major_s = tail.take(p);
                let rest = tail.skip(p + 1);
                let q = find_char(rest, '_');
                let minor_s = if q < 0 {
                    rest
                } else {
                    rest.take(q)
                };
                if !is_u64_numeral(major_s) {
                    Err(EpochParseError::InvalidInt)
                } else if !is_u64_numeral(minor_s) {
                    Err(EpochParseError::InvalidInt)
                } else {
                    let maj = numeral_val(major_s);
                    let min = numeral_val(minor_s);
                    if maj == 0 && min == 0 {
                        Err(EpochParseError::BadVersion)
                    } else if maj == 0 {
                        if q >= 0 {
                            Err(EpochParseError::BadFormat)
                        } else {
                            Ok(Epoch::Minor(min as u64))
                        }
                    } else {
                        Err(EpochParseError::BadVersion)
                    }
                }
            }
        }
    }
}

impl Epoch {
    /// An epoch never carries the number 0.
    pub open spec fn wf(self) -> bool {
        match self {
            Epoch::Minor(n) => n >= 1,
            Epoch::Major(n) => n >= 1,
        }
    }

    /// The directory-name rendering: `v{major}` or `v0_{minor}`.
    pub open spec fn epoch_str(self) -> Seq<char> {
        match self {
            Epoch::Major(n) => seq!['v'] + dec_str(n as nat),
            Epoch::Minor(n) => seq!['v', '0', '_'] + dec_str(n as nat),
        }
    }

    /// The version-requirement rendering: `{major}` or `0.{minor}`.
    pub open spec fn version_str(self) -> Seq<char> {
        match self {
            Epoch::Major(n) => dec_str(n as nat),
            Epoch::Minor(n) => seq!['0', '.'] + dec_str(n as nat),
        }
    }
}

/// A string is a valid epoch string when some well-formed epoch renders to
/// it.
pub open spec fn is_valid_epoch_str(s: Seq<char>) -> bool {
    exists|e: Epoch| e.wf() && s == e.epoch_str()
}

/// Parsing is a left inverse of rendering: the rendering of a well-formed
/// epoch parses back to that epoch.
pub proof fn lemma_parse_of_render(e: Epoch)
    requires
        e.wf(),
    ensures
        parse_epoch(e.epoch_str()) == Ok::<Epoch, EpochParseError>(e),
{
    match e {
        Epoch::Major(n) => {
            lemma_dec_str(n as nat);
            let s = seq!['v'] + dec_str(n as nat);
            let tail = s.skip(1);
            assert(tail =~= dec_str(n as nat));
            assert(!has_inner_v(tail)) by {
                assert forall|j: int| 0 <= j < tail.len() - 1 implies tail[j] != 'v' by {
                    assert(is_digit(tail[j]));
                }
            }
            assert(find_char(tail, '_') == -1) by {
                lemma_find_char(tail, '_');
                let r = find_char(tail, '_');
                if r != -1 {
                    assert(is_digit(tail[r]));
                }
            }
            assert(numeral_body(tail) == tail) by {
                assert(is_digit(tail[0]));
            }
            assert(is_u64_numeral(tail));
            assert(numeral_val(tail) == n);
        },
        Epoch::Minor(n) => {
            lemma_dec_str(n as nat);
            let s = seq!['v', '0', '_'] + dec_str(n as nat);
            let tail = s.skip(1);
            assert(tail =~= seq!['0', '_'] + dec_str(n as nat));
            assert(!has_inner_v(tail)) by {
                assert forall|j: int| 0 <= j < tail.len() - 1 implies tail[j] != 'v' by {
                    if j >= 2 {
                        assert(tail[j] == dec_str(n as nat)[j - 2]);
                        assert(is_digit(tail[j]));
                    }
                }
            }
            assert(find_char(tail, '_') == 1) by {
                assert(tail[1] == '_');
                assert(tail[0] == '0');
                lemma_find_char_unique(tail, '_', 1);
            }
            let major_s = tail.take(1);
            assert(major_s =~= seq!['0']);
            assert(dec_val(major_s) == digit_val('0')) by {
                assert(major_s.drop_last() =~= Seq::<char>::empty());
                assert(dec_val(Seq::<char>::empty()) == 0);
                assert(major_s.last() == '0');
            }
            assert(is_u64_numeral(major_s)) by {
                assert(numeral_body(major_s) == major_s);
            }
            assert(numeral_val(major_s) == 0);
            let rest = tail.skip(2);
            assert(rest =~= dec_str(n as nat));
            assert(find_char(rest, '_') == -1) by {
                lemma_find_char(rest, '_');
                let r = find_char(rest, '_');
                if r != -1 {
                    assert(is_digit(rest[r]));
                }
            }
            assert(numeral_body(rest) == rest) by {
                assert(is_digit(rest[0]));
            }
            assert(is_u64_numeral(rest));
            assert(numeral_val(rest) == n);
        },
    }
}

/// Round trip on valid epoch strings: a valid epoch string parses, and
/// rendering the parsed epoch gives back exactly the original string.
pub proof fn lemma_epoch_round_trip(s: Seq<char>)
    requires
        is_valid_epoch_str(s),
    ensures
        parse_epoch(s) is Ok,
        parse_epoch(s)->Ok_0.wf(),
        parse_epoch(s)->Ok_0.epoch_str() == s,
{
    let e = choose|e: Epoch| e.wf() && s == e.epoch_str();
    lemma_parse_of_render(e);
}

/// The decimal digit character for a value below ten.
fn digit_to_char(d: u64) -> (c: char)
    requires
        d < 10,
    ensures
        c == digit_char(d as nat),
{
    match d {
        0 => '0',
        1 => '1',
        2 => '2',
        3 => '3',
        4 => '4',
        5 => '5',
        6 => '6',
        7 => '7',
        8 => '8',
        _ => '9',
    }
}

/// Renders a number in canonical decimal.
fn u64_to_dec_string(n: u64) -> (r: String)
    ensures
        r@ == dec_str(n as nat),
    decreases n,
{
    if n < 10 {
        let mut out = String::new();
        out.push(digit_to_char(n));
        proof {
            assert(Seq::<char>::empty().push(digit_char(n as nat)) =~= seq![
                digit_char(n as nat),
            ]);
        }
        out
    } else {
        let mut out = u64_to_dec_string(n / 10);
        out.push(digit_to_char(n % 10));
        out
    }
}

/// The first position of `c` in the character range `[lo, hi)` of `s`.
#[verifier::loop_isolation(false)]
pub(crate) fn find_char_range(s: &str, lo: usize, hi: usize, c: char) -> (r: Option<usize>)
    requires
        lo <= hi <= s@.len(),
    ensures
        match r {
            Some(i) => lo <= i < hi && s@[i as int] == c && (forall|k: int|
                lo <= k < i ==> s@[k] != c),
            None => forall|k: int| lo <= k < hi ==> s@[k] != c,
        },
{
    let mut j: usize = lo;
    while j < hi
        invariant
            lo <= j <= hi,
            forall|k: int| lo <= k < j ==> s@[k] != c,
        decreases hi - j,
    {
        if s.get_char(j) == c {
            return Some(j);
        }
        j += 1;
    }
    None
}

/// Parses the character range `[lo, hi)` of `s` the way `u64` parsing does:
/// an optional plus sign, then decimal digits whose value must fit.
#[verifier::loop_isolation(false)]
fn parse_u64_range(s: &str, lo: usize, hi: usize) -> (r: Option<u64>)
    requires
        lo <= hi <= s@.len(),
    ensures
        match r {
            Some(v) => is_u64_numeral(s@.subrange(lo as int, hi as int)) && v == numeral_val(
                s@.subrange(lo as int, hi as int),
            ),
            None => !is_u64_numeral(s@.subrange(lo as int, hi as int)),
        },
{
    let ghost sub = s@.subrange(lo as int, hi as int);
    if lo == hi {
        proof {
            assert(numeral_body(sub) == sub);
        }
        return None;
    }
    let first = s.get_char(lo);
    let start: usize = if first == '+' {
        lo + 1
    } else {
        lo
    };
    let ghost body = s@.subrange(start as int, hi as int);
    proof {
        assert(sub[0] == s@[lo as int]);
        if first == '+' {
            assert(sub.drop_first() =~= body);
            assert(numeral_body(sub) == body);
        } else {
            assert(numeral_body(sub) == sub);
            assert(sub =~= body);
        }
    }
    if start == hi {
        return None;
    }
    let mut acc: u64 = 0;
    let mut j: usize = start;
    proof {
        assert(body.take(0) =~= Seq::<char>::empty());
    }
    while j < hi
        invariant
            start <= j <= hi,
            acc == dec_val(body.take(j - start as int)),
            all_digits(body.take(j - start as int)),
        decreases hi - j,
    {
        let ghost k = j - start as int;
        let c = s.get_char(j);
        proof {
            assert(body[k] == s@[j as int]);
        }
        let cu = c as u32;
        if cu < 48 || cu > 57 {
            proof {
                assert(!is_digit(body[k]));
            }
            return None;
        }
        let d = (cu - 48) as u64;
        proof {
            assert(body.take(k + 1).drop_last() =~= body.take(k));
            assert(body.take(k + 1).last() == body[k]);
            assert(digit_val(body[k]) == d);
            assert(dec_val(body.take(k + 1)) == dec_val(body.take(k)) * 10 + d);
            assert(all_digits(body.take(k + 1))) by {
                assert forall|i: int| 0 <= i < k + 1 implies is_digit(
                    #[trigger] body.take(k + 1)[i],
                ) by {
                    if i < k {
                        assert(body.take(k + 1)[i] == body.take(k)[i]);
                    } else {
                        assert(body.take(k + 1)[i] == body[k]);
                    }
                }
            }
        }
        let acc10 = match acc.checked_mul(10) {
            Some(x) => x,
            None => {
                proof {
                    lemma_dec_val_prefix_le(body, k + 1);
                }
                return None;
            },
        };
        let newacc = match acc10.checked_add(d) {
            Some(x) => x,
            None => {
                proof {
                    lemma_dec_val_prefix_le(body, k + 1);
                }
                return None;
            },
        };
        acc = newacc;
        j += 1;
    }
    proof {
        assert(body.take(hi - start as int) =~= body);
    }
    Some(acc)
}

impl Epoch {
    /// Parses an epoch string of the form `v{major}` or `v0_{minor}`.
    #[verifier::loop_isolation(false)]
    pub fn from_str(s: &str) -> (r: Result<Epoch, EpochParseError>)
        ensures
            r == parse_epoch(s@),
            r matches Ok(e) ==> e.wf(),
    {
        let n = s.unicode_len();
        if n < 2 {
            return Err(EpochParseError::BadFormat);
        }
        if s.get_char(0) != 'v' {
            return Err(EpochParseError::BadFormat);
        }
        let ghost tail = s@.skip(1);
        proof {
            assert(tail.len() == n - 1);
            assert(forall|j: int| 0 <= j < tail.len() ==> tail[j] == s@[j + 1]);
        }
        match find_char_range(s, 1, n - 1, 'v') {
            Some(i) => {
                proof {
                    assert(tail[i - 1] == 'v');
                    assert(has_inner_v(tail));
                }
                return Err(EpochParseError::BadFormat);
            },
            None => {
                proof {
                    assert(!has_inner_v(tail)) by {
                        assert forall|j: int| 0 <= j < tail.len() - 1 implies tail[j] != 'v' by {
                            assert(tail[j] == s@[j + 1]);
                        }
                    }
                }
            },
        }
        match find_char_range(s, 1, n, '_') {
            None => {
                proof {
                    lemma_find_char(tail, '_');
                    if find_char(tail, '_') != -1 {
                        assert(tail[find_char(tail, '_')] == '_');
                        assert(s@[find_char(tail, '_') + 1] == '_');
                    }
                    assert(tail =~= s@.subrange(1, n as int));
                }
                match parse_u64_range(s, 1, n) {
                    None => Err(EpochParseError::InvalidInt),
                    Some(v) => {
                        if v == 0 {
                            Err(EpochParseError::BadVersion)
                        } else {
                            Ok(Epoch::Major(v))
                        }
                    },
                }
            },
            Some(p) => {
                proof {
                    assert(tail[p - 1] == '_');
                    assert forall|k: int| 0 <= k < p - 1 implies tail[k] != '_' by {
                        assert(tail[k] == s@[k + 1]);
                    }
                    lemma_find_char_unique(tail, '_', p - 1);
                    assert(tail.take(p - 1) =~= s@.subrange(1, p as int));
                }
                let major = match parse_u64_range(s, 1, p) {
                    None => {
                        return Err(EpochParseError::InvalidInt);
                    },
                    Some(v) => v,
                };
                let ghost rest = tail.skip(p - 1 + 1);
                proof {
                    assert(rest =~= s@.subrange(p + 1, n as int));
                    assert(forall|j: int| 0 <= j < rest.len() ==> rest[j] == s@[j + p + 1]);
                }
                let q_opt = find_char_range(s, p + 1, n, '_');
                let hi = match q_opt {
                    Some(q) => {
                        proof {
                            assert(rest[q - p - 1] == '_');
                            assert forall|k: int| 0 <= k < q - p - 1 implies rest[k] != '_' by {
                                assert(rest[k] == s@[k + p + 1]);
                            }
                            lemma_find_char_unique(rest, '_', q - p - 1);
                            assert(rest.take(q - p - 1) =~= s@.subrange(p + 1, q as int));
                        }
                        q
                    },
                    None => {
                        proof {
                            lemma_find_char(rest, '_');
                            if find_char(rest, '_') != -1 {
                                assert(rest[find_char(rest, '_')] == '_');
                                assert(s@[find_char(rest, '_') + p + 1] == '_');
                            }
                        }
                        n
                    },
                };
                match parse_u64_range(s, p + 1, hi) {
                    None => Err(EpochParseError::InvalidInt),
                    Some(minv) => {
                        if major == 0 && minv == 0 {
                            Err(EpochParseError::BadVersion)
                        } else if major == 0 {
                            if hi < n {
                                Err(EpochParseError::BadFormat)
                            } else {
                                Ok(Epoch::Minor(minv))
                            }
                        } else {
                            Err(EpochParseError::BadVersion)
                        }
                    },
                }
            },
        }
    }

    /// Renders this epoch as a directory name: `v{major}` or `v0_{minor}`.
    pub fn to_string(&self) -> (r: String)
        requires
            self.wf(),
        ensures
            r@ == self.epoch_str(),
    {
        match self {
            Epoch::Major(n) => {
                let mut out = String::from_str("v");
                let num = u64_to_dec_string(*n);
                out.append(num.as_str());
                proof {
                    reveal_strlit("v");
                    assert("v"@ =~= seq!['v']);
                }
                out
            },
            Epoch::Minor(n) => {
                let mut out = String::from_str("v0_");
                let num = u64_to_dec_string(*n);
                out.append(num.as_str());
                proof {
                    reveal_strlit("v0_");
                    assert("v0_"@ =~= seq!['v', '0', '_']);
                }
                out
            },
        }
    }

    /// The semver version string for this epoch: a nonzero major component,
    /// or a zero major and a nonzero minor component. Note this differs from
    /// the directory-name rendering of `to_string`.
    pub fn to_version_string(&self) -> (r: String)
        requires
            self.wf(),
        ensures
            r@ == self.version_str(),
    {
        match self {
            Epoch::Major(n) => u64_to_dec_string(*n),
            Epoch::Minor(n) => {
                let mut out = String::from_str("0.");
                let num = u64_to_dec_string(*n);
                out.append(num.as_str());
                proof {
                    reveal_strlit("0.");
                    assert("0."@ =~= seq!['0', '.']);
                }
                out
            },
        }
    }

    /// The epoch of a resolved version: the major version when it is
    /// nonzero, else the minor version; a 0.0.x version has no epoch.
    pub fn from_version(version: &Version) -> (r: Option<Epoch>)
        ensures
            version.major == 0 && version.minor == 0 ==> r is None,
            version.major == 0 && version.minor > 0 ==> r == Some(Epoch::Minor(version.minor)),
            version.major > 0 ==> r == Some(Epoch::Major(version.major)),
            r matches Some(e) ==> e.wf(),
    {
        if version.major == 0 {
            if version.minor == 0 {
                None
            } else {
                Some(Epoch::Minor(version.minor))
            }
        } else {
            Some(Epoch::Major(version.major))
        }
    }
}

/// A character as it appears in a normalized crate name: dashes and dots
/// become underscores.
pub open spec fn normalize_char(c: char) -> char {
    if c == '-' || c == '.' {
        '_'
    } else {
        c
    }
}

/// The normalization of a crate name, characterwise.
pub open spec fn normalized_seq(s: Seq<char>) -> Seq<char> {
    s.map_values(|c: char| normalize_char(c))
}

/// A crate name normalized to the filesystem-safe form used for vendored
/// crate directories.
#[derive(Clone, Debug, PartialEq, Eq, PartialOrd, Ord, Hash)]
pub struct NormalizedName {
    name: String,
}

impl View for NormalizedName {
    type V = Seq<char>;

    closed spec fn view(&self) -> Seq<char> {
        self.name@
    }
}

impl NormalizedName {
    /// Wraps an already normalized name, checking that it is one.
    pub fn new(normalized_name: &str) -> (r: Option<NormalizedName>)
        ensures
            r is Some <==> normalized_seq(normalized_name@) == normalized_name@,
            r matches Some(nn) ==> nn@ == normalized_name@,
    {
        let n = normalized_name.unicode_len();
        let mut i: usize = 0;
        while i < n
            invariant
                i <= n,
                n == normalized_name@.len(),
                forall|k: int| 0 <= k < i ==> normalized_name@[k] != '-' && normalized_name@[k]
                    != '.',
            decreases n - i,
        {
            let c = normalized_name.get_char(i);
            if c == '-' || c == '.' {
                proof {
                    let ghost iv = i as int;
                    assert(normalized_seq(normalized_name@)[iv] == '_');
                    assert(normalized_seq(normalized_name@)[iv] != normalized_name@[iv]);
                }
                return None;
            }
            i += 1;
        }
        proof {
            assert(normalized_seq(normalized_name@) =~= normalized_name@);
        }
        Some(NormalizedName { name: normalized_name.to_owned() })
    }

    /// Normalizes a crate name: `crate_name` is the name Cargo uses to
    /// refer to the crate.
    pub fn from_crate_name(crate_name: &str) -> (r: NormalizedName)
        ensures
            r@ == normalized_seq(crate_name@),
    {
        let n = crate_name.unicode_len();
        let mut out = String::new();
        let mut i: usize = 0;
        while i < n
            invariant
                i <= n,
                n == crate_name@.len(),
                out@ == normalized_seq(crate_name@).take(i as int),
            decreases n - i,
        {
            let c = crate_name.get_char(i);
            let mapped: char = if c == '-' || c == '.' {
                '_'
            } else {
                c
            };
            out.push(mapped);
            proof {
                assert(mapped == normalize_char(crate_name@[i as int]));
                assert(normalized_seq(crate_name@).take(i + 1 as int) =~= normalized_seq(
                    crate_name@,
                ).take(i as int).push(normalized_seq(crate_name@)[i as int]));
            }
            i += 1;
        }
        proof {
            assert(normalized_seq(crate_name@).take(n as int) =~= normalized_seq(crate_name@));
        }
        NormalizedName { name: out }
    }

    /// The normalized name as text.
    pub fn as_str(&self) -> (r: &str)
        ensures
            r@ == self@,
    {
        self.name.as_str()
    }
}

/// Identifies a vendored third-party crate by its upstream name and its
/// epoch; the pair determines the on-disk directory.
#[derive(Clone, Debug, PartialEq, Eq, PartialOrd, Ord, Hash)]
pub struct ChromiumVendoredCrate {
    /// The upstream name as specified in its Cargo.toml.
    pub name: String,
    /// The crate's epoch.
    pub epoch: Epoch,
}

impl ChromiumVendoredCrate {
    /// The epoch carries a nonzero number.
    pub open spec fn wf(self) -> bool {
        self.epoch.wf()
    }

    /// The directory of this crate's build files, relative to the
    /// third-party crate directory: `<normalized-name>/<epoch>`.
    pub open spec fn build_path_spec(self) -> Seq<char> {
        normalized_seq(self.name@) + seq!['/'] + self.epoch.epoch_str()
    }

    /// The directory of this crate's source, relative to the third-party
    /// crate directory: `<normalized-name>/<epoch>/crate`.
    pub open spec fn crate_path_spec(self) -> Seq<char> {
        self.build_path_spec() + seq!['/', 'c', 'r', 'a', 't', 'e']
    }

    /// The unique name of this crate for patch sections:
    /// `<name>_<epoch>`.
    pub open spec fn patch_name_spec(self) -> Seq<char> {
        self.name@ + seq!['_'] + self.epoch.epoch_str()
    }

    /// The normalized name used in the vendoring structure.
    pub fn normalized_name(&self) -> (r: NormalizedName)
        ensures
            r@ == normalized_seq(self.name@),
    {
        NormalizedName::from_crate_name(self.name.as_str())
    }

    /// The location of this crate's directory, including its source subdir
    /// and build files, relative to the third-party crate directory.
    pub fn build_path(&self) -> (r: String)
        requires
            self.wf(),
        ensures
            r@ == self.build_path_spec(),
    {
        let nn = self.normalized_name();
        let mut out = String::from_str(nn.as_str());
        out.append("/");
        let e = self.epoch.to_string();
        out.append(e.as_str());
        proof {
            reveal_strlit("/");
            assert("/"@ =~= seq!['/']);
        }
        out
    }

    /// The location of this crate's source relative to the third-party
    /// crate directory.
    pub fn crate_path(&self) -> (r: String)
        requires
            self.wf(),
        ensures
            r@ == self.crate_path_spec(),
    {
        let mut out = self.build_path();
        out.append("/crate");
        proof {
            reveal_strlit("/crate");
            assert("/crate"@ =~= seq!['/', 'c', 'r', 'a', 't', 'e']);
        }
        out
    }

    /// Unique but arbitrary name for this (crate, epoch) pair, suitable for
    /// use in patch sections.
    pub fn patch_name(&self) -> (r: String)
        requires
            self.wf(),
        ensures
            r@ == self.patch_name_spec(),
    {
        let mut out = self.name.clone();
        out.append("_");
        let e = self.epoch.to_string();
        out.append(e.as_str());
        proof {
            reveal_strlit("_");
            assert("_"@ =~= seq!['_']);
        }
        out
    }
}

/// The comparators of a parsed version requirement: for each one, whether
/// its operator is the default caret strategy, its major version, and its
/// minor version if present.
pub uninterp spec fn parsed_version_req(s: Seq<char>) -> Option<Seq<(bool, u64, Option<u64>)>>;

/// Relies on `semver::VersionReq::from_str`: the parse of a version
/// requirement is a function of the string alone; each comparator is
/// reported as its operator-is-caret flag, major and minor numbers.
#[verifier::external_body]
fn parse_version_req(req: &str) -> (r: Option<Vec<(bool, u64, Option<u64>)>>)
    ensures
        match r {
            Some(v) => parsed_version_req(req@) == Some(v@),
            None => parsed_version_req(req@) is None,
        },
{
    match <semver::VersionReq as core::str::FromStr>::from_str(req) {
        Ok(vr) => Some(
            vr.comparators.into_iter().map(
                |c| (matches!(c.op, semver::Op::Caret), c.major, c.minor),
            ).collect(),
        ),
        Err(_) => None,
    }
}

/// Errors from deriving an epoch out of a version requirement.
#[derive(Clone, Copy, Debug, PartialEq, Eq, Structural)]
pub enum VersionReqError {
    /// The requirement string did not parse as a version requirement.
    Parse,
    /// The requirement did not consist of exactly one comparator.
    NotOneComparator,
    /// The comparator did not use the default (caret) strategy.
    NotDefault,
    /// The version has no epoch: its major is zero and its minor is absent
    /// or zero.
    NoEpoch,
}

/// The epoch requested by a list of comparators: exactly one comparator
/// with the default strategy is accepted, and its epoch is its major
/// version, or its minor version when the major is zero and the minor is
/// nonzero.
pub open spec fn epoch_from_comparators_spec(cs: Seq<(bool, u64, Option<u64>)>) -> Result<
    Epoch,
    VersionReqError,
> {
    if cs.len() != 1 {
        Err(VersionReqError::NotOneComparator)
    } else if !cs[0].0 {
        Err(VersionReqError::NotDefault)
    } else if cs[0].1 == 0 {
        match cs[0].2 {
            None => Err(VersionReqError::NoEpoch),
            Some(m) => if m == 0 {
                Err(VersionReqError::NoEpoch)
            } else {
                Ok(Epoch::Minor(m))
            },
        }
    } else {
        Ok(Epoch::Major(cs[0].1))
    }
}

/// The epoch requested by the comparators of a version requirement.
pub fn epoch_from_comparators(cs: &Vec<(bool, u64, Option<u64>)>) -> (r: Result<
    Epoch,
    VersionReqError,
>)
    ensures
        r == epoch_from_comparators_spec(cs@),
        r matches Ok(e) ==> e.wf(),
{
    if cs.len() != 1 {
        Err(VersionReqError::NotOneComparator)
    } else {
        let (caret, major, minor) = cs[0];
        if !caret {
            Err(VersionReqError::NotDefault)
        } else if major == 0 {
            match minor {
                None => Err(VersionReqError::NoEpoch),
                Some(m) => {
                    if m == 0 {
                        Err(VersionReqError::NoEpoch)
                    } else {
                        Ok(Epoch::Minor(m))
                    }
                },
            }
        } else {
            Ok(Epoch::Major(major))
        }
    }
}

impl Epoch {
    /// The requested epoch from a dependency version-requirement string, as
    /// used in the dependency tables of a manifest. The requirement must
    /// hold exactly one comparator, using the default strategy.
    pub fn from_version_req_str(req: &str) -> (r: Result<Epoch, VersionReqError>)
        ensures
            parsed_version_req(req@) is None ==> r == Err::<Epoch, VersionReqError>(
                VersionReqError::Parse,
            ),
            parsed_version_req(req@) matches Some(cs) ==> r == epoch_from_comparators_spec(cs),
            r matches Ok(e) ==> e.wf(),
    {
        match parse_version_req(req) {
            None => Err(VersionReqError::Parse),
            Some(cs) => epoch_from_comparators(&cs),
        }
    }
}

} // verus!
