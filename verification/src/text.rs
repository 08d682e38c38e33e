//! Character-level text processing: trimming, line and word splitting,
//! decimal integer parsing and rendering, quote stripping, and substring
//! search.  Each executable function is verified against a spec-level
//! model of the same operation on `Seq<char>`.

use vstd::prelude::*;
use vstd::string::*;

verus! {

/// The whitespace characters this language recognizes: space, tab,
/// carriage return and line feed.
pub open spec fn is_space(c: char) -> bool {
    c == ' ' || c == '\t' || c == '\r' || c == '\n'
}

/// Executable test for [`is_space`].
pub fn space_char(c: char) -> (r: bool)
    ensures
        r == is_space(c),
{
    c == ' ' || c == '\t' || c == '\r' || c == '\n'
}

/// The sequence with its leading whitespace removed.
pub open spec fn ltrim(s: Seq<char>) -> Seq<char>
    decreases s.len(),
{
    if s.len() > 0 && is_space(s[0]) {
        ltrim(s.drop_first())
    } else {
        s
    }
}

/// The sequence with its trailing whitespace removed.
pub open spec fn rtrim(s: Seq<char>) -> Seq<char>
    decreases s.len(),
{
    if s.len() > 0 && is_space(s.last()) {
        rtrim(s.drop_last())
    } else {
        s
    }
}

/// The sequence with surrounding whitespace removed.
pub open spec fn trim_spec(s: Seq<char>) -> Seq<char> {
    rtrim(ltrim(s))
}

proof fn lemma_ltrim_skip(s: Seq<char>, k: int)
    requires
        0 <= k <= s.len(),
        forall|i: int| 0 <= i < k ==> is_space(s[i]),
        k == s.len() || !is_space(s[k]),
    ensures
        ltrim(s) =~= s.skip(k),
    decreases k,
{
    if k == 0 {
        assert(s.skip(0) =~= s);
    } else {
        assert(is_space(s[0]));
        lemma_ltrim_skip(s.drop_first(), k - 1);
        assert(s.drop_first().skip(k - 1) =~= s.skip(k));
    }
}

proof fn lemma_rtrim_take(s: Seq<char>, k: int)
    requires
        0 <= k <= s.len(),
        forall|i: int| k <= i < s.len() ==> is_space(s[i]),
        k == 0 || !is_space(s[k - 1]),
    ensures
        rtrim(s) =~= s.take(k),
    decreases s.len() - k,
{
    if k == s.len() {
        assert(s.take(k) =~= s);
        if s.len() > 0 {
            assert(!is_space(s.last()));
        }
    } else {
        assert(is_space(s.last()));
        lemma_rtrim_take(s.drop_last(), k);
        assert(s.drop_last().take(k) =~= s.take(k));
    }
}

/// Returns the input with surrounding whitespace removed.
pub fn trim(s: &str) -> (r: String)
    ensures
        r@ == trim_spec(s@),
{
    let n = s.unicode_len();
    let mut lo: usize = 0;
    while lo < n && space_char(s.get_char(lo))
        invariant
            0 <= lo <= n,
            n == s@.len(),
            forall|i: int| 0 <= i < lo ==> is_space(s@[i]),
        decreases n - lo,
    {
        lo = lo + 1;
    }
    proof {
        lemma_ltrim_skip(s@, lo as int);
    }
    if lo == n {
        proof {
            assert(ltrim(s@) =~= Seq::<char>::empty());
            assert(rtrim(ltrim(s@)) =~= Seq::<char>::empty());
        }
        return String::new();
    }
    let mut hi: usize = n;
    while hi > lo && space_char(s.get_char(hi - 1))
        invariant
            lo <= hi <= n,
            n == s@.len(),
            forall|i: int| hi <= i < n ==> is_space(s@[i]),
        decreases hi,
    {
        hi = hi - 1;
    }
    proof {
        let t = s@.skip(lo as int);
        assert(forall|i: int| hi - lo <= i < t.len() ==> is_space(#[trigger] t[i]));
        if hi > lo {
            assert(!is_space(t[hi - lo - 1]));
        } else {
            assert(!is_space(s@[lo as int]));
            assert(!is_space(t[0]));
            assert(hi - lo == 0 || !is_space(t[hi - lo - 1]));
        }
        lemma_rtrim_take(t, hi - lo);
        assert(t.take(hi - lo) =~= s@.subrange(lo as int, hi as int));
    }
    let t = s.substring_char(lo, hi);
    t.to_owned()
}

/// The whitespace-separated words of a sequence, in order, each non-empty.
pub open spec fn split_ws_spec(s: Seq<char>) -> Seq<Seq<char>>
    decreases s.len(),
{
    if s.len() == 0 {
        Seq::empty()
    } else {
        let rest = split_ws_spec(s.drop_last());
        let c = s.last();
        if is_space(c) {
            rest
        } else if s.len() == 1 || is_space(s[s.len() - 2]) {
            rest.push(seq![c])
        } else {
            rest.update(rest.len() - 1, rest.last().push(c))
        }
    }
}

proof fn lemma_split_ws_last_nonspace(s: Seq<char>)
    requires
        s.len() > 0,
        !is_space(s.last()),
    ensures
        split_ws_spec(s).len() > 0,
    decreases s.len(),
{
    if s.len() == 1 || is_space(s[s.len() - 2]) {
    } else {
        lemma_split_ws_last_nonspace(s.drop_last());
    }
}

/// Returns the whitespace-separated words of the input, in order.
pub fn split_ws(s: &str) -> (r: Vec<String>)
    ensures
        r.deep_view() == split_ws_spec(s@),
{
    let n = s.unicode_len();
    let mut words: Vec<String> = Vec::new();
    let mut prev_space = true;
    let mut i: usize = 0;
    while i < n
        invariant
            0 <= i <= n,
            n == s@.len(),
            words.deep_view() == split_ws_spec(s@.take(i as int)),
            prev_space == (i == 0 || is_space(s@[i as int - 1])),
        decreases n - i,
    {
        let c = s.get_char(i);
        proof {
            assert(s@.take(i as int + 1).drop_last() =~= s@.take(i as int));
            assert(s@.take(i as int + 1).last() == s@[i as int]);
        }
        if space_char(c) {
            proof {
                assert(words.deep_view() =~~= split_ws_spec(s@.take(i as int + 1)));
            }
            prev_space = true;
        } else {
            let piece = s.substring_char(i, i + 1);
            proof {
                assert(piece@ =~= seq![s@[i as int]]);
            }
            if prev_space {
                let mut w = String::new();
                w.append(piece);
                let ghost old_words = words.deep_view();
                words.push(w);
                proof {
                    assert(words.deep_view() =~~= old_words.push(seq![s@[i as int]]));
                    assert(words.deep_view() =~~= split_ws_spec(s@.take(i as int + 1)));
                }
            } else {
                proof {
                    lemma_split_ws_last_nonspace(s@.take(i as int));
                }
                let mut w = match words.pop() {
                    Some(w) => w,
                    None => {
                        proof {
                            assert(false);
                        }
                        String::new()
                    },
                };
                let ghost old_words = split_ws_spec(s@.take(i as int));
                w.append(piece);
                words.push(w);
                proof {
                    assert(w@ =~= old_words.last().push(s@[i as int]));
                    assert(words.deep_view() =~~= old_words.update(
                        old_words.len() - 1,
                        old_words.last().push(s@[i as int]),
                    ));
                    assert(words.deep_view() =~~= split_ws_spec(s@.take(i as int + 1)));
                }
            }
            prev_space = false;
        }
        i = i + 1;
    }
    proof {
        assert(s@.take(n as int) =~= s@);
    }
    words
}

/// The lines of a text, split at line feeds; a final line feed ends the
/// last line without starting a new one.
pub open spec fn lines_spec(s: Seq<char>) -> Seq<Seq<char>>
    decreases s.len(),
{
    if s.len() == 0 {
        Seq::empty()
    } else {
        let rest = lines_spec(s.drop_last());
        let c = s.last();
        let fresh = s.len() == 1 || s[s.len() - 2] == '\n';
        if c == '\n' {
            if fresh {
                rest.push(Seq::empty())
            } else {
                rest
            }
        } else {
            if fresh {
                rest.push(seq![c])
            } else {
                rest.update(rest.len() - 1, rest.last().push(c))
            }
        }
    }
}

proof fn lemma_lines_last_not_newline(s: Seq<char>)
    requires
        s.len() > 0,
        s.last() != '\n',
    ensures
        lines_spec(s).len() > 0,
    decreases s.len(),
{
    if s.len() == 1 || s[s.len() - 2] == '\n' {
    } else {
        lemma_lines_last_not_newline(s.drop_last());
    }
}

/// Returns the lines of the input, split at line feeds.
pub fn split_lines(s: &str) -> (r: Vec<String>)
    ensures
        r.deep_view() == lines_spec(s@),
{
    let n = s.unicode_len();
    let mut lines: Vec<String> = Vec::new();
    let mut fresh = true;
    let mut i: usize = 0;
    while i < n
        invariant
            0 <= i <= n,
            n == s@.len(),
            lines.deep_view() == lines_spec(s@.take(i as int)),
            fresh == (i == 0 || s@[i as int - 1] == '\n'),
        decreases n - i,
    {
        let c = s.get_char(i);
        proof {
            assert(s@.take(i as int + 1).drop_last() =~= s@.take(i as int));
            assert(s@.take(i as int + 1).last() == s@[i as int]);
        }
        if c == '\n' {
            if fresh {
                let ghost old_lines = lines.deep_view();
                lines.push(String::new());
                proof {
                    assert(lines.deep_view() =~~= old_lines.push(Seq::<char>::empty()));
                    assert(lines.deep_view() =~~= lines_spec(s@.take(i as int + 1)));
                }
            } else {
                proof {
                    assert(lines.deep_view() =~~= lines_spec(s@.take(i as int + 1)));
                }
            }
            fresh = true;
        } else {
            let piece = s.substring_char(i, i + 1);
            proof {
                assert(piece@ =~= seq![s@[i as int]]);
            }
            if fresh {
                let mut w = String::new();
                w.append(piece);
                let ghost old_lines = lines.deep_view();
                lines.push(w);
                proof {
                    assert(lines.deep_view() =~~= old_lines.push(seq![s@[i as int]]));
                    assert(lines.deep_view() =~~= lines_spec(s@.take(i as int + 1)));
                }
            } else {
                proof {
                    lemma_lines_last_not_newline(s@.take(i as int));
                }
                let mut w = match lines.pop() {
                    Some(w) => w,
                    None => {
                        proof {
                            assert(false);
                        }
                        String::new()
                    },
                };
                let ghost old_lines = lines_spec(s@.take(i as int));
                w.append(piece);
                lines.push(w);
                proof {
                    assert(w@ =~= old_lines.last().push(s@[i as int]));
                    assert(lines.deep_view() =~~= old_lines.update(
                        old_lines.len() - 1,
                        old_lines.last().push(s@[i as int]),
                    ));
                    assert(lines.deep_view() =~~= lines_spec(s@.take(i as int + 1)));
                }
            }
            fresh = false;
        }
        i = i + 1;
    }
    proof {
        assert(s@.take(n as int) =~= s@);
    }
    lines
}

/// Whether the character is a decimal digit.
pub open spec fn is_digit(c: char) -> bool {
    48 <= c as int && c as int <= 57
}

/// The numeric value of a decimal digit character.
pub open spec fn digit_val(c: char) -> int {
    c as int - 48
}

/// Whether every character of the sequence is a decimal digit.
pub open spec fn all_digits(s: Seq<char>) -> bool {
    forall|i: int| 0 <= i < s.len() ==> is_digit(s[i])
}

/// The value of a sequence of decimal digit characters, most significant
/// first.
pub open spec fn digits_val(s: Seq<char>) -> int
    decreases s.len(),
{
    if s.len() == 0 {
        0
    } else {
        digits_val(s.drop_last()) * 10 + digit_val(s.last())
    }
}

/// The value a sequence of characters denotes as a 64-bit signed decimal
/// integer literal: an optional single `+` or `-` sign, then one or more
/// decimal digits, and the value within the 64-bit signed range; `None`
/// for any other sequence.
/// The digit part of a possibly signed integer literal: the sequence
/// without its single leading `+` or `-` sign, if one is present.
pub open spec fn sign_split(s: Seq<char>) -> Seq<char> {
    if s.len() > 0 && (s[0] == '-' || s[0] == '+') {
        s.drop_first()
    } else {
        s
    }
}

pub open spec fn parsed_i64(s: Seq<char>) -> Option<int> {
    let negative = s.len() > 0 && s[0] == '-';
    let ds = sign_split(s);
    if ds.len() > 0 && all_digits(ds) {
        let v = if negative {
            -digits_val(ds)
        } else {
            digits_val(ds)
        };
        if i64::MIN <= v <= i64::MAX {
            Some(v)
        } else {
            None
        }
    } else {
        None
    }
}

proof fn lemma_digits_val_nonneg(s: Seq<char>)
    requires
        all_digits(s),
    ensures
        digits_val(s) >= 0,
    decreases s.len(),
{
    if s.len() > 0 {
        assert(all_digits(s.drop_last())) by {
            assert(forall|i: int| 0 <= i < s.len() - 1 ==> is_digit(#[trigger] s.drop_last()[i]));
        }
        lemma_digits_val_nonneg(s.drop_last());
    }
}

proof fn lemma_digits_val_mono(s: Seq<char>, j: int)
    requires
        all_digits(s),
        0 <= j <= s.len(),
    ensures
        0 <= digits_val(s.take(j)) <= digits_val(s),
    decreases s.len(),
{
    if j == s.len() {
        assert(s.take(j) =~= s);
        lemma_digits_val_nonneg(s);
    } else {
        assert(all_digits(s.drop_last())) by {
            assert(forall|i: int| 0 <= i < s.len() - 1 ==> is_digit(#[trigger] s.drop_last()[i]));
        }
        assert(s.drop_last().take(j) =~= s.take(j));
        lemma_digits_val_mono(s.drop_last(), j);
        lemma_digits_val_nonneg(s.drop_last());
    }
}

/// Parses the input as a 64-bit signed decimal integer, exactly on the
/// inputs that [`parsed_i64`] accepts.
pub fn parse_i64(s: &str) -> (r: Option<i64>)
    ensures
        match r {
            Some(v) => parsed_i64(s@) == Some(v as int),
            None => parsed_i64(s@) is None,
        },
{
    let n = s.unicode_len();
    let mut start: usize = 0;
    let mut neg = false;
    if n > 0 {
        let c0 = s.get_char(0);
        if c0 == '-' {
            neg = true;
            start = 1;
        } else if c0 == '+' {
            start = 1;
        }
    }
    if start == n {
        return None;
    }
    let ghost ds: Seq<char> = sign_split(s@);
    proof {
        assert(ds.len() == n - start);
        assert(forall|j: int| 0 <= j < ds.len() ==> ds[j] == s@[j + start as int]);
    }
    let mut i: usize = start;
    while i < n
        invariant
            start <= i <= n,
            n == s@.len(),
            start <= 1,
            ds == sign_split(s@),
            ds.len() == n - start,
            forall|j: int| 0 <= j < ds.len() ==> ds[j] == s@[j + start as int],
            forall|j: int| start <= j < i ==> is_digit(s@[j]),
        decreases n - i,
    {
        let c = s.get_char(i);
        let u = c as u32;
        if u < 48 || u > 57 {
            proof {
                assert(!is_digit(ds[i - start]));
                assert(!all_digits(ds));
            }
            return None;
        }
        i = i + 1;
    }
    proof {
        assert(all_digits(ds));
    }
    let mut acc: u64 = 0;
    let mut i: usize = start;
    while i < n
        invariant
            start <= i <= n,
            n == s@.len(),
            start <= 1,
            ds == sign_split(s@),
            ds.len() == n - start,
            forall|j: int| 0 <= j < ds.len() ==> ds[j] == s@[j + start as int],
            all_digits(ds),
            acc == digits_val(ds.take(i - start)),
        decreases n - i,
    {
        let c = s.get_char(i);
        let u = c as u32;
        proof {
            assert(is_digit(ds[i - start]));
            assert(48 <= u <= 57);
        }
        let d: u64 = (u - 48) as u64;
        proof {
            assert(ds.take(i - start + 1).drop_last() =~= ds.take(i - start));
            assert(ds.take(i - start + 1).last() == ds[i - start]);
            assert(digits_val(ds.take(i - start + 1)) == acc * 10 + d);
            lemma_digits_val_mono(ds, i - start + 1);
        }
        match acc.checked_mul(10) {
            None => {
                proof {
                    assert(digits_val(ds) > u64::MAX);
                }
                return None;
            },
            Some(a) => {
                match a.checked_add(d) {
                    None => {
                        proof {
                            assert(digits_val(ds) > u64::MAX);
                        }
                        return None;
                    },
                    Some(a2) => {
                        acc = a2;
                    },
                }
            },
        }
        i = i + 1;
    }
    proof {
        assert(ds.take(n - start) =~= ds);
        assert(acc == digits_val(ds));
    }
    if neg {
        if acc > 9223372036854775808u64 {
            return None;
        }
        if acc == 9223372036854775808u64 {
            return Some(i64::MIN);
        }
        Some(-(acc as i64))
    } else {
        if acc > 9223372036854775807u64 {
            return None;
        }
        Some(acc as i64)
    }
}

/// The character for a decimal digit value.
pub open spec fn digit_char(d: int) -> char {
    (48 + d) as char
}

/// The decimal digit characters of a non-negative value, most significant
/// first, without leading zeros except for the value zero itself.
pub open spec fn dec_digits(n: int) -> Seq<char>
    decreases n,
{
    if n < 10 {
        seq![digit_char(n)]
    } else {
        dec_digits(n / 10).push(digit_char(n % 10))
    }
}

/// The decimal rendering of a 64-bit signed integer value: a `-` sign for
/// negative values, then the digits of its magnitude.
pub open spec fn dec_i64(v: int) -> Seq<char> {
    if v < 0 {
        seq!['-'] + dec_digits(-v)
    } else {
        dec_digits(v)
    }
}

spec fn rev_digit_chars(ds: Seq<u64>) -> Seq<char> {
    Seq::new(ds.len(), |k: int| digit_char(ds[ds.len() - 1 - k] as int))
}

fn digit_str(d: u64) -> (r: &'static str)
    requires
        d < 10,
    ensures
        r@ =~= seq![digit_char(d as int)],
{
    if d == 0 {
        proof {
            reveal_strlit("0");
        }
        "0"
    } else if d == 1 {
        proof {
            reveal_strlit("1");
        }
        "1"
    } else if d == 2 {
        proof {
            reveal_strlit("2");
        }
        "2"
    } else if d == 3 {
        proof {
            reveal_strlit("3");
        }
        "3"
    } else if d == 4 {
        proof {
            reveal_strlit("4");
        }
        "4"
    } else if d == 5 {
        proof {
            reveal_strlit("5");
        }
        "5"
    } else if d == 6 {
        proof {
            reveal_strlit("6");
        }
        "6"
    } else if d == 7 {
        proof {
            reveal_strlit("7");
        }
        "7"
    } else if d == 8 {
        proof {
            reveal_strlit("8");
        }
        "8"
    } else {
        proof {
            reveal_strlit("9");
        }
        "9"
    }
}

/// Renders a 64-bit signed integer in decimal.
pub fn i64_to_text(v: i64) -> (r: String)
    ensures
        r@ == dec_i64(v as int),
{
    let mag: u64 = if v >= 0 {
        v as u64
    } else if v == i64::MIN {
        9223372036854775808u64
    } else {
        (-v) as u64
    };
    let mut digits: Vec<u64> = Vec::new();
    let mut cur: u64 = mag;
    digits.push(cur % 10);
    cur = cur / 10;
    while cur > 0
        invariant
            digits@.len() > 0,
            forall|k: int| 0 <= k < digits@.len() ==> digits@[k] < 10,
            if cur == 0 {
                dec_digits(mag as int) =~= rev_digit_chars(digits@)
            } else {
                dec_digits(mag as int) =~= dec_digits(cur as int) + rev_digit_chars(digits@)
            },
        decreases cur,
    {
        let d = cur % 10;
        let next = cur / 10;
        let ghost old_digits = digits@;
        digits.push(d);
        proof {
            assert(rev_digit_chars(digits@) =~= seq![digit_char(d as int)] + rev_digit_chars(
                old_digits,
            ));
            if next == 0 {
                assert(dec_digits(cur as int) =~= seq![digit_char(d as int)]);
            } else {
                assert(dec_digits(cur as int) =~= dec_digits(next as int) + seq![
                    digit_char(d as int),
                ]);
            }
        }
        cur = next;
    }
    let mut r = String::new();
    proof {
        reveal_strlit("-");
    }
    let ghost sign: Seq<char> = if v < 0 {
        seq!['-']
    } else {
        Seq::empty()
    };
    if v < 0 {
        r.append("-");
    }
    let mut j: usize = digits.len();
    while j > 0
        invariant
            0 <= j <= digits@.len(),
            forall|k: int| 0 <= k < digits@.len() ==> digits@[k] < 10,
            dec_digits(mag as int) =~= rev_digit_chars(digits@),
            r@ =~= sign + rev_digit_chars(digits@).take(digits@.len() - j),
        decreases j,
    {
        let piece = digit_str(digits[j - 1]);
        r.append(piece);
        proof {
            assert(rev_digit_chars(digits@).take(digits@.len() - j + 1) =~= rev_digit_chars(
                digits@,
            ).take(digits@.len() - j).push(digit_char(digits@[j - 1] as int)));
        }
        j = j - 1;
    }
    proof {
        assert(rev_digit_chars(digits@).take(digits@.len() as int) =~= rev_digit_chars(digits@));
        assert(r@ =~= sign + dec_digits(mag as int));
        if v < 0 {
            assert(mag as int == -(v as int));
        } else {
            assert(mag as int == v as int);
        }
    }
    r
}

/// The sequence with every double-quote character removed.
pub open spec fn strip_quotes_spec(s: Seq<char>) -> Seq<char>
    decreases s.len(),
{
    if s.len() == 0 {
        Seq::empty()
    } else {
        strip_quotes_spec(s.drop_last()) + (if s.last() == '"' {
            Seq::<char>::empty()
        } else {
            seq![s.last()]
        })
    }
}

/// Returns the input with every double-quote character removed.
pub fn strip_quotes(s: &str) -> (r: String)
    ensures
        r@ == strip_quotes_spec(s@),
{
    let n = s.unicode_len();
    let mut r = String::new();
    let mut i: usize = 0;
    while i < n
        invariant
            0 <= i <= n,
            n == s@.len(),
            r@ == strip_quotes_spec(s@.take(i as int)),
        decreases n - i,
    {
        let c = s.get_char(i);
        proof {
            assert(s@.take(i as int + 1).drop_last() =~= s@.take(i as int));
            assert(s@.take(i as int + 1).last() == s@[i as int]);
        }
        if c != '"' {
            let piece = s.substring_char(i, i + 1);
            proof {
                assert(piece@ =~= seq![s@[i as int]]);
            }
            r.append(piece);
        }
        proof {
            assert(r@ =~= strip_quotes_spec(s@.take(i as int + 1)));
        }
        i = i + 1;
    }
    proof {
        assert(s@.take(n as int) =~= s@);
    }
    r
}

/// The concatenation of the items with a single space between neighbours.
pub open spec fn join_spaced(items: Seq<Seq<char>>) -> Seq<char>
    decreases items.len(),
{
    if items.len() == 0 {
        Seq::empty()
    } else if items.len() == 1 {
        items[0]
    } else {
        join_spaced(items.drop_last()) + seq![' '] + items.last()
    }
}

/// Joins the items with a single space between neighbours.
pub fn join_spaced_exec(items: &Vec<String>) -> (r: String)
    ensures
        r@ == join_spaced(items.deep_view()),
{
    let mut r = String::new();
    let mut i: usize = 0;
    while i < items.len()
        invariant
            0 <= i <= items@.len(),
            r@ == join_spaced(items.deep_view().take(i as int)),
        decreases items@.len() - i,
    {
        proof {
            reveal_strlit(" ");
        }
        if i > 0 {
            r.append(" ");
        }
        r.append(items[i].as_str());
        proof {
            assert(items.deep_view().take(i as int + 1).drop_last() =~~= items.deep_view().take(
                i as int,
            ));
            assert(items.deep_view().take(i as int + 1).last() == items.deep_view()[i as int]);
            assert(r@ =~= join_spaced(items.deep_view().take(i as int + 1)));
        }
        i = i + 1;
    }
    proof {
        assert(items.deep_view().take(items@.len() as int) =~~= items.deep_view());
    }
    r
}

/// Returns whether two strings hold the same characters.
pub fn str_eq(a: &str, b: &str) -> (r: bool)
    ensures
        r == (a@ == b@),
{
    let n = a.unicode_len();
    let m = b.unicode_len();
    if n != m {
        return false;
    }
    let mut i: usize = 0;
    while i < n
        invariant
            0 <= i <= n,
            n == a@.len(),
            n == b@.len(),
            forall|j: int| 0 <= j < i ==> a@[j] == b@[j],
        decreases n - i,
    {
        if a.get_char(i) != b.get_char(i) {
            return false;
        }
        i = i + 1;
    }
    proof {
        assert(a@ =~= b@);
    }
    true
}

/// Whether `m` occurs as a contiguous subsequence of `s`.
pub open spec fn has_sub(s: Seq<char>, m: Seq<char>) -> bool {
    exists|k: int|
        0 <= k && k + m.len() <= s.len() && #[trigger] s.subrange(k, k + m.len() as int) == m
}

fn match_at(s: &str, m: &str, k: usize) -> (r: bool)
    requires
        k + m@.len() <= s@.len(),
    ensures
        r == (s@.subrange(k as int, k as int + m@.len() as int) == m@),
{
    let n = s.unicode_len();
    let ml = m.unicode_len();
    let mut j: usize = 0;
    while j < ml
        invariant
            0 <= j <= ml,
            ml == m@.len(),
            n == s@.len(),
            k + ml <= n,
            forall|jj: int| 0 <= jj < j ==> s@[k + jj] == m@[jj],
        decreases ml - j,
    {
        if s.get_char(k + j) != m.get_char(j) {
            proof {
                assert(s@.subrange(k as int, k as int + ml as int)[j as int] != m@[j as int]);
            }
            return false;
        }
        j = j + 1;
    }
    proof {
        assert(s@.subrange(k as int, k as int + ml as int) =~= m@);
    }
    true
}

/// Returns whether `m` occurs as a contiguous substring of `s`.
pub fn contains_sub(s: &str, m: &str) -> (r: bool)
    ensures
        r == has_sub(s@, m@),
{
    let n = s.unicode_len();
    let ml = m.unicode_len();
    if ml == 0 {
        proof {
            assert(s@.subrange(0, 0 + m@.len() as int) =~= m@);
            assert(has_sub(s@, m@));
        }
        return true;
    }
    if ml > n {
        proof {
            assert(!has_sub(s@, m@)) by {
                if has_sub(s@, m@) {
                    let k = choose|k: int|
                        0 <= k && k + m@.len() <= s@.len() && #[trigger] s@.subrange(
                            k,
                            k + m@.len() as int,
                        ) == m@;
                    assert(false);
                }
            }
        }
        return false;
    }
    let mut k: usize = 0;
    while k <= n - ml
        invariant
            1 <= ml <= n,
            n == s@.len(),
            ml == m@.len(),
            0 <= k <= n - ml + 1,
            forall|kk: int|
                0 <= kk < k ==> #[trigger] s@.subrange(kk, kk + m@.len() as int) != m@,
        decreases n - ml - k + 1,
    {
        if match_at(s, m, k) {
            proof {
                assert(has_sub(s@, m@));
            }
            return true;
        }
        k = k + 1;
    }
    proof {
        assert(!has_sub(s@, m@)) by {
            if has_sub(s@, m@) {
                let kk = choose|kk: int|
                    0 <= kk && kk + m@.len() <= s@.len() && #[trigger] s@.subrange(
                        kk,
                        kk + m@.len() as int,
                    ) == m@;
                assert(kk < k);
                assert(false);
            }
        }
    }
    false
}

} // verus!
