//! Character-level text operations used by the request parser and the
//! response writer: pattern search, splitting, trimming and decimal numbers.
use vstd::prelude::*;
use vstd::string::*;
use vstd::utf8::*;

verus! {

/// `pat` occurs in `s` starting at index `i`.
pub open spec fn occurs_at(s: Seq<char>, pat: Seq<char>, i: int) -> bool {
    &&& 0 <= i
    &&& i + pat.len() <= s.len()
    &&& s.subrange(i, i + pat.len()) == pat
}

/// The first index `j >= from` at which `pat` occurs in `s`, if there is one.
pub open spec fn find_from(s: Seq<char>, pat: Seq<char>, from: int) -> Option<int>
    decreases s.len() - from,
{
    if from < 0 || from + pat.len() > s.len() {
        None
    } else if pat.len() == 0 || occurs_at(s, pat, from) {
        Some(from)
    } else {
        find_from(s, pat, from + 1)
    }
}

pub proof fn lemma_find_from(s: Seq<char>, pat: Seq<char>, from: int)
    ensures
        find_from(s, pat, from) matches Some(j) ==> {
            &&& from <= j
            &&& j + pat.len() <= s.len()
            &&& occurs_at(s, pat, j)
            &&& forall|k: int| from <= k < j ==> !occurs_at(s, pat, k)
        },
        find_from(s, pat, from) is None && 0 <= from ==> forall|k: int|
            from <= k ==> !occurs_at(s, pat, k),
    decreases s.len() - from,
{
    if from < 0 || from + pat.len() > s.len() {
    } else if pat.len() == 0 {
        assert(s.subrange(from, from + pat.len()) =~= pat);
    } else if occurs_at(s, pat, from) {
    } else {
        lemma_find_from(s, pat, from + 1);
    }
}

/// The pieces of `s[start..]` between the non-overlapping occurrences of
/// `pat`, found from left to right (what `str::split` yields).
pub open spec fn split_from(s: Seq<char>, pat: Seq<char>, start: int) -> Seq<Seq<char>>
    decreases s.len() - start,
{
    if pat.len() == 0 || start < 0 || start > s.len() {
        seq![s.subrange(start, s.len() as int)]
    } else {
        match find_from(s, pat, start) {
            None => seq![s.subrange(start, s.len() as int)],
            Some(j) => {
                proof {
                    lemma_find_from(s, pat, start);
                }
                seq![s.subrange(start, j)] + split_from(s, pat, j + pat.len())
            },
        }
    }
}

/// `s` split at every occurrence of `pat`.
pub open spec fn split(s: Seq<char>, pat: Seq<char>) -> Seq<Seq<char>> {
    split_from(s, pat, 0)
}

/// Splitting always gives at least one piece.
pub proof fn lemma_split_from_nonempty(s: Seq<char>, pat: Seq<char>, start: int)
    ensures
        split_from(s, pat, start).len() >= 1,
{
}

/// The split of `s` at the first occurrence of `pat` (what `str::split_once` yields).
pub open spec fn split_once(s: Seq<char>, pat: Seq<char>) -> Option<(Seq<char>, Seq<char>)> {
    match find_from(s, pat, 0) {
        Some(j) => Some((s.subrange(0, j), s.subrange(j + pat.len(), s.len() as int))),
        None => None,
    }
}

/// Unicode `White_Space`, which `char::is_whitespace` and `str::trim` use.
pub open spec fn white_space(c: char) -> bool {
    ||| ('\u{9}' <= c && c <= '\u{d}')
    ||| c == ' '
    ||| c == '\u{85}'
    ||| c == '\u{a0}'
    ||| c == '\u{1680}'
    ||| ('\u{2000}' <= c && c <= '\u{200a}')
    ||| c == '\u{2028}'
    ||| c == '\u{2029}'
    ||| c == '\u{202f}'
    ||| c == '\u{205f}'
    ||| c == '\u{3000}'
}

/// `s` without its leading white space.
pub open spec fn trim_start(s: Seq<char>) -> Seq<char>
    decreases s.len(),
{
    if s.len() > 0 && white_space(s[0]) {
        trim_start(s.drop_first())
    } else {
        s
    }
}

/// `s` without its trailing white space.
pub open spec fn trim_end(s: Seq<char>) -> Seq<char>
    decreases s.len(),
{
    if s.len() > 0 && white_space(s.last()) {
        trim_end(s.drop_last())
    } else {
        s
    }
}

/// `s` without leading and trailing white space (what `str::trim` yields).
pub open spec fn trim(s: Seq<char>) -> Seq<char> {
    trim_end(trim_start(s))
}

/// The decimal digit for `d < 10`.
pub open spec fn digit(d: nat) -> char {
    seq!['0', '1', '2', '3', '4', '5', '6', '7', '8', '9'][d as int]
}

/// The decimal numeral of `n`, without leading zeros.
pub open spec fn decimal(n: nat) -> Seq<char>
    decreases n,
{
    if n < 10 {
        seq![digit(n)]
    } else {
        decimal(n / 10).push(digit(n % 10))
    }
}

/// The number that a string of decimal digits denotes.
pub open spec fn numeral_value(s: Seq<char>) -> nat
    decreases s.len(),
{
    if s.len() == 0 {
        0
    } else {
        numeral_value(s.drop_last()) * 10 + (s.last() as nat - '0' as nat) as nat
    }
}

/// The decimal numeral of `n` is made of digits, starts with a non-zero digit
/// unless it is `0`, and denotes `n`.
pub proof fn lemma_decimal_denotes(n: nat)
    ensures
        numeral_value(decimal(n)) == n,
        decimal(n).len() >= 1,
        forall|i: int| 0 <= i < decimal(n).len() ==> '0' <= #[trigger] decimal(n)[i] <= '9',
        n > 0 ==> decimal(n)[0] != '0',
    decreases n,
{
    let d = seq!['0', '1', '2', '3', '4', '5', '6', '7', '8', '9'];
    assert forall|k: nat| k < 10 implies ('0' <= #[trigger] digit(k) <= '9' && digit(k) as nat - '0' as nat == k && (k > 0 ==> digit(k) != '0')) by {
        assert(digit(k) == d[k as int]);
    }
    if n >= 10 {
        lemma_decimal_denotes(n / 10);
        let s = decimal(n);
        assert(s.drop_last() == decimal(n / 10));
        assert(s.last() == digit(n % 10));
        assert(n == (n / 10) * 10 + n % 10);
        assert forall|i: int| 0 <= i < s.len() implies '0' <= #[trigger] s[i] <= '9' by {
            if i < s.len() - 1 {
                assert(s[i] == decimal(n / 10)[i]);
            }
        }
        assert(s[0] == decimal(n / 10)[0]);
        assert(numeral_value(s) == numeral_value(s.drop_last()) * 10 + (s.last() as nat - '0' as nat) as nat);
        assert((s.last() as nat - '0' as nat) as nat == n % 10);
    } else {
        let s = decimal(n);
        assert(s.drop_last() =~= Seq::<char>::empty());
        assert(numeral_value(s) == numeral_value(s.drop_last()) * 10 + (s.last() as nat - '0' as nat) as nat);
    }
}

/// The number of bytes in the UTF-8 encoding of `s`.
pub open spec fn utf8_len(s: Seq<char>) -> nat {
    encode_utf8(s).len()
}

/// The characters of `s`, in order.
pub fn chars_of(s: &str) -> (v: Vec<char>)
    ensures
        v@ == s@,
{
    broadcast use vstd::string::group_string_axioms;

    let mut v: Vec<char> = Vec::new();
    for c in iter: s.chars()
        invariant
            v@ == iter.seq().take(iter.index() as int),
            iter.seq() == s@,
    {
        v.push(c);
    }
    v
}

/// The characters `s[from..to]` as a new `String`.
pub fn substring(s: &str, from: usize, to: usize) -> (r: String)
    requires
        from <= to <= s@.len(),
    ensures
        r@ == s@.subrange(from as int, to as int),
{
    String::from_str(s.substring_char(from, to))
}

/// Whether `pat` occurs in `s` at `i`.
fn occurs_at_exec(s: &Vec<char>, pat: &Vec<char>, i: usize) -> (r: bool)
    requires
        i + pat@.len() <= s@.len(),
    ensures
        r == occurs_at(s@, pat@, i as int),
{
    let mut k: usize = 0;
    let plen = pat.len();
    let slen = s.len();
    while k < plen
        invariant
            plen == pat@.len(),
            slen == s@.len(),
            k <= pat@.len(),
            i + pat@.len() <= s@.len(),
            forall|m: int| 0 <= m < k ==> s@[i + m] == pat@[m],
        decreases pat@.len() - k,
    {
        if s[i + k] != pat[k] {
            assert(s@.subrange(i as int, i + pat@.len())[k as int] != pat@[k as int]);
            return false;
        }
        k = k + 1;
    }
    assert(s@.subrange(i as int, i + pat@.len()) =~= pat@);
    true
}

/// The first index at or after `from` where `pat` occurs in `s`.
pub fn find_exec(s: &Vec<char>, pat: &Vec<char>, from: usize) -> (r: Option<usize>)
    ensures
        r == (match find_from(s@, pat@, from as int) {
            Some(j) => Some(j as usize),
            None => None::<usize>,
        }),
        r matches Some(j) ==> from <= j && j + pat@.len() <= s@.len() && find_from(
            s@,
            pat@,
            from as int,
        ) == Some(j as int),
        r is None ==> find_from(s@, pat@, from as int) is None,
{
    proof {
        lemma_find_from(s@, pat@, from as int);
    }
    let slen = s.len();
    let plen = pat.len();
    if plen > slen || from > slen - plen {
        return None;
    }
    if plen == 0 {
        return Some(from);
    }
    let last = slen - plen;
    let mut i = from;
    while i <= last
        invariant
            last == s@.len() - pat@.len(),
            plen == pat@.len(),
            slen == s@.len(),
            plen >= 1,
            from <= i,
            find_from(s@, pat@, from as int) == find_from(s@, pat@, i as int),
        decreases last + 1 - i,
    {
        if occurs_at_exec(s, pat, i) {
            return Some(i);
        }
        i = i + 1;
    }
    None
}

/// `s` split at every occurrence of the non-empty pattern `pat` (`str::split`).
pub fn split_exec(s: &str, pat: &str) -> (parts: Vec<String>)
    requires
        pat@.len() > 0,
    ensures
        parts@.len() == split(s@, pat@).len(),
        forall|k: int| 0 <= k < parts@.len() ==> #[trigger] parts@[k]@ == split(s@, pat@)[k],
{
    let chars = chars_of(s);
    let pchars = chars_of(pat);
    let slen = chars.len();
    let plen = pchars.len();
    let mut parts: Vec<String> = Vec::new();
    let mut start: usize = 0;
    let ghost whole = split(s@, pat@);
    loop
        invariant
            chars@ == s@,
            pchars@ == pat@,
            slen == s@.len(),
            plen == pat@.len(),
            pat@.len() > 0,
            start <= s@.len(),
            whole == split(s@, pat@),
            whole.len() == parts@.len() + split_from(s@, pat@, start as int).len(),
            forall|k: int| 0 <= k < parts@.len() ==> #[trigger] parts@[k]@ == whole[k],
            forall|k: int|
                0 <= k < split_from(s@, pat@, start as int).len() ==> whole[parts@.len() + k]
                    == #[trigger] split_from(s@, pat@, start as int)[k],
        decreases s@.len() - start,
    {
        proof {
            lemma_find_from(s@, pat@, start as int);
        }
        match find_exec(&chars, &pchars, start) {
            None => {
                let piece = substring(s, start, slen);
                assert(split_from(s@, pat@, start as int) =~= seq![s@.subrange(start as int, s@.len() as int)]);
                assert(whole[parts@.len() as int] == split_from(s@, pat@, start as int)[0]);
                parts.push(piece);
                assert(parts@.len() == whole.len());
                return parts;
            },
            Some(j) => {
                assert(find_from(s@, pat@, start as int) == Some(j as int));
                let piece = substring(s, start, j);
                let ghost rest = split_from(s@, pat@, j + pat@.len());
                assert(split_from(s@, pat@, start as int) == seq![s@.subrange(start as int, j as int)] + rest);
                assert(whole[parts@.len() as int] == split_from(s@, pat@, start as int)[0]);
                assert forall|k: int| 0 <= k < rest.len() implies whole[parts@.len() + 1 + k] == #[trigger] rest[k] by {
                    assert(split_from(s@, pat@, start as int)[k + 1] == rest[k]);
                }
                parts.push(piece);
                start = j + plen;
            },
        }
    }
}

/// `s` split at the first occurrence of `c` (`str::split_once` with a one-character pattern).
pub fn split_once_exec(s: &str, c: &str) -> (r: Option<(String, String)>)
    requires
        c@.len() == 1,
    ensures
        r matches Some(p) ==> split_once(s@, c@) == Some((p.0@, p.1@)),
        r is None <==> split_once(s@, c@) is None,
{
    let chars = chars_of(s);
    let pchars = chars_of(c);
    let slen = chars.len();
    match find_exec(&chars, &pchars, 0) {
        Some(j) => {
            assert(find_from(s@, c@, 0) == Some(j as int));
            let before = substring(s, 0, j);
            let after = substring(s, j + 1, slen);
            Some((before, after))
        },
        None => None,
    }
}

/// Whether `c` is Unicode white space (`char::is_whitespace`).
pub fn is_white_space(c: char) -> (r: bool)
    ensures
        r == white_space(c),
{
    ('\u{9}' <= c && c <= '\u{d}') || c == ' ' || c == '\u{85}' || c == '\u{a0}' || c == '\u{1680}'
        || ('\u{2000}' <= c && c <= '\u{200a}') || c == '\u{2028}' || c == '\u{2029}' || c
        == '\u{202f}' || c == '\u{205f}' || c == '\u{3000}'
}

proof fn lemma_trim_start_skip(s: Seq<char>, i: int)
    requires
        0 <= i < s.len(),
        white_space(s[i]),
    ensures
        trim_start(s.subrange(i, s.len() as int)) == trim_start(s.subrange(i + 1, s.len() as int)),
{
    assert(s.subrange(i, s.len() as int).drop_first() =~= s.subrange(i + 1, s.len() as int));
}

proof fn lemma_trim_end_skip(s: Seq<char>, a: int, j: int)
    requires
        0 <= a < j <= s.len(),
        white_space(s[j - 1]),
    ensures
        trim_end(s.subrange(a, j)) == trim_end(s.subrange(a, j - 1)),
{
    assert(s.subrange(a, j).drop_last() =~= s.subrange(a, j - 1));
}

/// `s` without leading and trailing white space (`str::trim`).
pub fn trim_exec(s: &str) -> (r: String)
    ensures
        r@ == trim(s@),
{
    let chars = chars_of(s);
    let len = chars.len();
    let mut a: usize = 0;
    assert(s@.subrange(0, len as int) =~= s@);
    while a < len && is_white_space(chars[a])
        invariant
            chars@ == s@,
            len == s@.len(),
            a <= len,
            trim_start(s@) == trim_start(s@.subrange(a as int, len as int)),
        decreases len - a,
    {
        proof {
            lemma_trim_start_skip(s@, a as int);
        }
        a = a + 1;
    }
    assert(trim_start(s@.subrange(a as int, len as int)) == s@.subrange(a as int, len as int));
    let mut b: usize = len;
    while b > a && is_white_space(chars[b - 1])
        invariant
            chars@ == s@,
            len == s@.len(),
            a <= b <= len,
            trim_start(s@) == s@.subrange(a as int, len as int),
            trim(s@) == trim_end(s@.subrange(a as int, b as int)),
        decreases b - a,
    {
        proof {
            lemma_trim_end_skip(s@, a as int, b as int);
        }
        b = b - 1;
    }
    assert(trim_end(s@.subrange(a as int, b as int)) == s@.subrange(a as int, b as int));
    substring(s, a, b)
}

/// The one-character string for the decimal digit `d`.
fn digit_str(d: u64) -> (s: &'static str)
    requires
        d < 10,
    ensures
        s@ == seq![digit(d as nat)],
{
    if d == 0 {
        proof { reveal_strlit("0"); }
        "0"
    } else if d == 1 {
        proof { reveal_strlit("1"); }
        "1"
    } else if d == 2 {
        proof { reveal_strlit("2"); }
        "2"
    } else if d == 3 {
        proof { reveal_strlit("3"); }
        "3"
    } else if d == 4 {
        proof { reveal_strlit("4"); }
        "4"
    } else if d == 5 {
        proof { reveal_strlit("5"); }
        "5"
    } else if d == 6 {
        proof { reveal_strlit("6"); }
        "6"
    } else if d == 7 {
        proof { reveal_strlit("7"); }
        "7"
    } else if d == 8 {
        proof { reveal_strlit("8"); }
        "8"
    } else {
        proof { reveal_strlit("9"); }
        "9"
    }
}

/// Appends the decimal numeral of `n` to `out`.
pub fn push_decimal(out: &mut String, n: u64)
    ensures
        final(out)@ == old(out)@ + decimal(n as nat),
    decreases n,
{
    if n < 10 {
        out.append(digit_str(n));
    } else {
        push_decimal(out, n / 10);
        out.append(digit_str(n % 10));
        assert(decimal(n as nat) == decimal((n / 10) as nat).push(digit((n % 10) as nat)));
    }
}

/// The decimal numeral of `n` (`u64::to_string`).
pub fn decimal_string(n: u64) -> (r: String)
    ensures
        r@ == decimal(n as nat),
{
    let mut out = String::new();
    push_decimal(&mut out, n);
    out
}

/// The string that `bytes` encode in UTF-8, if they are valid UTF-8.
/// Trusted: calls `std::str::from_utf8`, which documents that it returns `Ok`
/// exactly on valid UTF-8 and then views the same bytes as a `str`; the
/// contract states this with vstd's `valid_utf8` and `decode_utf8`.
#[verifier::external_body]
pub(crate) fn utf8_str(bytes: &[u8]) -> (r: Option<&str>)
    ensures
        r is Some <==> valid_utf8(bytes@),
        r matches Some(s) ==> s@ == decode_utf8(bytes@),
{
    std::str::from_utf8(bytes).ok()
}

} // verus!
