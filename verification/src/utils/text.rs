//! Character-level helpers shared by the cgroup file parsers and the
//! renderers: whitespace splitting, line splitting, unsigned decimal parsing
//! and printing.
use vstd::prelude::*;

verus! {

/// The characters that carry the Unicode `White_Space` property, which is
/// what `char::is_whitespace` and `str::split_whitespace` go by.
pub open spec fn is_ws(c: char) -> bool {
    ||| ('\u{9}' <= c && c <= '\u{d}')
    ||| c == ' '
    ||| c == '\u{85}'
    ||| c == '\u{a0}'
    ||| c == '\u{1680}'
    ||| ('\u{2000}' <= c && c <= '\u{200a}')
    ||| c == '\u{2028}'
    ||| c == '\u{2029}'
    ||| c == '\u{202f}'
    ||| c == '\u{205f}'
    ||| c == '\u{3000}'
}

/// Whether `c` is Unicode whitespace.
pub fn is_whitespace(c: char) -> (r: bool)
    ensures
        r == is_ws(c),
{
    ('\u{9}' <= c && c <= '\u{d}') || c == ' ' || c == '\u{85}' || c == '\u{a0}' || c
        == '\u{1680}' || ('\u{2000}' <= c && c <= '\u{200a}') || c == '\u{2028}' || c
        == '\u{2029}' || c == '\u{202f}' || c == '\u{205f}' || c == '\u{3000}'
}

/// The maximal runs of non-whitespace characters of `s`, in order: what
/// `split_whitespace` yields. Defined one character at a time from the left.
pub open spec fn words(s: Seq<char>) -> Seq<Seq<char>>
    decreases s.len(),
{
    if s.len() == 0 {
        seq![]
    } else {
        let prev = words(s.drop_last());
        let c = s.last();
        if is_ws(c) {
            prev
        } else if s.len() == 1 || is_ws(s[s.len() - 2]) {
            prev.push(seq![c])
        } else {
            prev.update(prev.len() - 1, prev.last().push(c))
        }
    }
}

/// A whitespace character after `s` adds no word.
pub proof fn lemma_words_push_ws(s: Seq<char>, c: char)
    requires
        is_ws(c),
    ensures
        words(s.push(c)) == words(s),
{
    assert(s.push(c).drop_last() =~= s);
}

/// A run of non-whitespace characters after `s`, where `s` is empty or ends
/// in whitespace, is one more word.
pub proof fn lemma_words_append_word(s: Seq<char>, t: Seq<char>)
    requires
        s.len() == 0 || is_ws(s.last()),
        t.len() > 0,
        forall|i: int| 0 <= i < t.len() ==> !is_ws(#[trigger] t[i]),
    ensures
        words(s + t) == words(s).push(t),
    decreases t.len(),
{
    let st = s + t;
    if t.len() == 1 {
        assert(st.drop_last() =~= s);
        assert(st.last() == t[0]);
        if s.len() > 0 {
            assert(st[st.len() - 2] == s.last());
        }
        assert(seq![t[0]] =~= t);
    } else {
        let u = t.drop_last();
        assert forall|i: int| 0 <= i < u.len() implies !is_ws(#[trigger] u[i]) by {
            assert(u[i] == t[i]);
        }
        lemma_words_append_word(s, u);
        assert(st.drop_last() =~= s + u);
        assert(st.last() == t[t.len() - 1]);
        assert(st[st.len() - 2] == t[t.len() - 2]);
        assert(u.push(t.last()) =~= t);
        assert(words(s).push(u).update(words(s).len() as int, u.push(t.last())) =~= words(s).push(t));
    }
}

/// The pieces of `s` between newline characters (one more piece than there
/// are newlines). Every word of `str::lines` lies in exactly one piece, and a
/// piece that `str::lines` would not yield (after a final newline) has no
/// words, so the words of the pieces are the words of the lines.
pub open spec fn pieces(s: Seq<char>) -> Seq<Seq<char>>
    decreases s.len(),
{
    if s.len() == 0 {
        seq![seq![]]
    } else {
        let prev = pieces(s.drop_last());
        let c = s.last();
        if c == '\n' {
            prev.push(seq![])
        } else {
            prev.update(prev.len() - 1, prev.last().push(c))
        }
    }
}

/// The words of each line of `s`.
pub open spec fn line_words(s: Seq<char>) -> Seq<Seq<Seq<char>>> {
    pieces(s).map_values(|line: Seq<char>| words(line))
}

/// The views of a vector of character vectors.
pub open spec fn char_rows(v: Seq<Vec<char>>) -> Seq<Seq<char>> {
    v.map_values(|w: Vec<char>| w@)
}

/// The characters of `s`, in order.
pub fn chars_of(s: &str) -> (v: Vec<char>)
    ensures
        v@ == s@,
{
    let mut v: Vec<char> = Vec::new();
    for c in it: s.chars()
        invariant
            v@ == it.seq().take(it.index() as int),
            it.seq() == s@,
    {
        v.push(c);
    }
    v
}

/// Splits `s` into its words, as `split_whitespace` does.
pub fn split_words(s: &Vec<char>) -> (r: Vec<Vec<char>>)
    ensures
        char_rows(r@) == words(s@),
{
    let mut done: Vec<Vec<char>> = Vec::new();
    let mut cur: Vec<char> = Vec::new();
    let mut in_word = false;
    let mut i: usize = 0;
    while i < s.len()
        invariant
            i <= s.len(),
            in_word ==> i > 0 && !is_ws(s@[i - 1]),
            !in_word ==> (i > 0 ==> is_ws(s@[i - 1])),
            in_word ==> words(s@.take(i as int)) == char_rows(done@).push(cur@),
            !in_word ==> words(s@.take(i as int)) == char_rows(done@),
            !in_word ==> cur@.len() == 0,
        decreases s.len() - i,
    {
        let c = s[i];
        proof {
            assert(s@.take(i + 1).drop_last() =~= s@.take(i as int));
            assert(s@.take(i + 1).last() == c);
            if i > 0 {
                assert(s@.take(i + 1)[i - 1] == s@[i - 1]);
            }
        }
        if is_whitespace(c) {
            if in_word {
                let ghost old_done = done@;
                let w = cur;
                done.push(w);
                cur = Vec::new();
                proof {
                    assert(char_rows(done@) =~= char_rows(old_done).push(w@));
                }
            }
            in_word = false;
        } else {
            if in_word {
                let ghost old_cur = cur@;
                cur.push(c);
                proof {
                    let prev = words(s@.take(i as int));
                    assert(prev == char_rows(done@).push(old_cur));
                    assert(words(s@.take(i + 1)) == prev.update(prev.len() - 1, prev.last().push(c)));
                    assert(words(s@.take(i + 1)) =~= char_rows(done@).push(cur@));
                }
            } else {
                cur.push(c);
                proof {
                    assert(cur@ =~= seq![c]);
                }
            }
            in_word = true;
        }
        i += 1;
    }
    proof {
        assert(s@.take(i as int) =~= s@);
    }
    if in_word {
        let ghost old_done = done@;
        let w = cur;
        done.push(w);
        proof {
            assert(char_rows(done@) =~= char_rows(old_done).push(w@));
        }
    }
    done
}

/// Splits `s` at its newline characters.
pub fn split_pieces(s: &Vec<char>) -> (r: Vec<Vec<char>>)
    ensures
        char_rows(r@) == pieces(s@),
{
    let mut done: Vec<Vec<char>> = Vec::new();
    let mut cur: Vec<char> = Vec::new();
    let mut i: usize = 0;
    proof {
        assert(s@.take(0) =~= Seq::<char>::empty());
        assert(char_rows(done@).push(cur@) =~= seq![seq![]]);
    }
    while i < s.len()
        invariant
            i <= s.len(),
            pieces(s@.take(i as int)) == char_rows(done@).push(cur@),
        decreases s.len() - i,
    {
        let c = s[i];
        proof {
            assert(s@.take(i + 1).drop_last() =~= s@.take(i as int));
            assert(s@.take(i + 1).last() == c);
        }
        let ghost old_done = done@;
        let ghost old_cur = cur@;
        if c == '\n' {
            let w = cur;
            done.push(w);
            cur = Vec::new();
            proof {
                assert(char_rows(done@) =~= char_rows(old_done).push(old_cur));
                assert(char_rows(done@).push(cur@) =~= pieces(s@.take(i + 1)));
            }
        } else {
            cur.push(c);
            proof {
                assert(char_rows(done@).push(cur@) =~= pieces(s@.take(i + 1)));
            }
        }
        i += 1;
    }
    proof {
        assert(s@.take(i as int) =~= s@);
    }
    let ghost old_done = done@;
    let w = cur;
    done.push(w);
    proof {
        assert(char_rows(done@) =~= char_rows(old_done).push(w@));
    }
    done
}


/// Appends one character to a string: `String::push`.
#[verifier::external_body]
pub(crate) fn push_char(s: &mut String, c: char)
    ensures
        final(s)@ == old(s)@.push(c),
{
    s.push(c)
}

/// A string holding the characters of `v`.
pub fn string_of(v: &Vec<char>) -> (r: String)
    ensures
        r@ == v@,
{
    let mut r = String::new();
    let mut i: usize = 0;
    while i < v.len()
        invariant
            i <= v.len(),
            r@ == v@.take(i as int),
        decreases v.len() - i,
    {
        push_char(&mut r, v[i]);
        proof {
            assert(v@.take(i + 1) =~= v@.take(i as int).push(v@[i as int]));
        }
        i += 1;
    }
    proof {
        assert(v@.take(i as int) =~= v@);
    }
    r
}

/// Whether `w` holds exactly the characters of `s`.
pub fn same_chars(w: &Vec<char>, s: &str) -> (r: bool)
    ensures
        r == (w@ == s@),
{
    let t = chars_of(s);
    same_vec(w, &t)
}

/// Whether two character vectors are equal.
pub fn same_vec(w: &Vec<char>, t: &Vec<char>) -> (r: bool)
    ensures
        r == (w@ == t@),
{
    if w.len() != t.len() {
        return false;
    }
    let mut i: usize = 0;
    while i < w.len()
        invariant
            i <= w.len(),
            w.len() == t.len(),
            forall|j: int| 0 <= j < i ==> w@[j] == t@[j],
        decreases w.len() - i,
    {
        if w[i] != t[i] {
            return false;
        }
        i += 1;
    }
    proof {
        assert(w@ =~= t@);
    }
    true
}

/// An ASCII decimal digit.
pub open spec fn is_digit(c: char) -> bool {
    '0' <= c && c <= '9'
}

/// The value of a decimal digit character.
pub open spec fn digit_value(c: char) -> int {
    c as int - '0' as int
}

/// The value of a string of decimal digits, most significant first.
pub open spec fn digits_value(d: Seq<char>) -> int
    decreases d.len(),
{
    if d.len() == 0 {
        0
    } else {
        digits_value(d.drop_last()) * 10 + digit_value(d.last())
    }
}

pub open spec fn all_digits(d: Seq<char>) -> bool {
    forall|i: int| 0 <= i < d.len() ==> is_digit(#[trigger] d[i])
}

/// The digits of an unsigned number as `u64::from_str` reads them: one
/// leading `+` is dropped when something follows it.
pub open spec fn unsigned_body(w: Seq<char>) -> Seq<char> {
    if w.len() > 1 && w[0] == '+' {
        w.drop_first()
    } else {
        w
    }
}

/// What `str::parse::<u64>()` gives for `w`, as an `Option`: a non-empty run
/// of ASCII digits, after an optional `+`, whose value fits in a `u64`.
pub open spec fn parse_u64(w: Seq<char>) -> Option<u64> {
    let d = unsigned_body(w);
    if d.len() > 0 && all_digits(d) && digits_value(d) <= u64::MAX {
        Some(digits_value(d) as u64)
    } else {
        None
    }
}

proof fn lemma_digits_value_prefix(d: Seq<char>, k: int)
    requires
        all_digits(d),
        0 <= k <= d.len(),
    ensures
        0 <= digits_value(d.take(k)) <= digits_value(d),
    decreases d.len(),
{
    if d.len() > 0 {
        if k == d.len() {
            assert(d.take(k) =~= d);
            lemma_digits_value_prefix(d.drop_last(), k - 1);
            assert(d.drop_last().take(k - 1) =~= d.drop_last());
        } else {
            lemma_digits_value_prefix(d.drop_last(), k);
            assert(d.drop_last().take(k) =~= d.take(k));
            lemma_digits_value_prefix(d.drop_last(), d.len() - 1);
            assert(d.drop_last().take(d.len() - 1) =~= d.drop_last());
        }
    }
}

/// Parses `w` as `str::parse::<u64>()` does, giving `None` on failure.
pub fn parse_u64_chars(w: &Vec<char>) -> (r: Option<u64>)
    ensures
        r == parse_u64(w@),
{
    let mut start: usize = 0;
    if w.len() > 1 && w[0] == '+' {
        start = 1;
    }
    let ghost d = unsigned_body(w@);
    proof {
        assert(d =~= w@.skip(start as int));
    }
    if start == w.len() {
        return None;
    }
    let mut acc: u64 = 0;
    let mut i: usize = start;
    proof {
        assert(d.take(0) =~= Seq::<char>::empty());
    }
    while i < w.len()
        invariant
            start <= i <= w.len(),
            start < w.len(),
            d == w@.skip(start as int),
            d == unsigned_body(w@),
            all_digits(d.take(i - start)),
            acc as int == digits_value(d.take(i - start)),
        decreases w.len() - i,
    {
        let c = w[i];
        let ghost k: int = i - start;
        proof {
            assert(d[k] == c);
            assert(d.take(k + 1).drop_last() =~= d.take(k));
            assert(d.take(k + 1).last() == c);
        }
        if !('0' <= c && c <= '9') {
            proof {
                assert(!is_digit(d[k]));
            }
            return None;
        }
        let dv = (c as u32 - '0' as u32) as u64;
        proof {
            assert(all_digits(d.take(k + 1)));
        }
        match acc.checked_mul(10) {
            None => {
                proof {
                    if all_digits(d) {
                        lemma_digits_value_prefix(d, k + 1);
                    }
                }
                return None;
            },
            Some(m) => match m.checked_add(dv) {
                None => {
                    proof {
                        if all_digits(d) {
                            lemma_digits_value_prefix(d, k + 1);
                        }
                    }
                    return None;
                },
                Some(v) => {
                    acc = v;
                },
            },
        }
        i += 1;
    }
    proof {
        assert(d.take(i - start) =~= d);
    }
    Some(acc)
}

/// The decimal digit character for `d < 10`.
pub open spec fn digit_char(d: nat) -> char {
    if d == 0 {
        '0'
    } else if d == 1 {
        '1'
    } else if d == 2 {
        '2'
    } else if d == 3 {
        '3'
    } else if d == 4 {
        '4'
    } else if d == 5 {
        '5'
    } else if d == 6 {
        '6'
    } else if d == 7 {
        '7'
    } else if d == 8 {
        '8'
    } else {
        '9'
    }
}

/// The decimal representation of `n`, without leading zeros: what `{}`
/// prints for an unsigned integer.
pub open spec fn decimal(n: nat) -> Seq<char>
    decreases n,
{
    if n < 10 {
        seq![digit_char(n)]
    } else {
        decimal(n / 10).push(digit_char(n % 10))
    }
}

pub(crate) fn digit_to_char(d: u64) -> (c: char)
    requires
        d < 10,
    ensures
        c == digit_char(d as nat),
{
    if d == 0 {
        '0'
    } else if d == 1 {
        '1'
    } else if d == 2 {
        '2'
    } else if d == 3 {
        '3'
    } else if d == 4 {
        '4'
    } else if d == 5 {
        '5'
    } else if d == 6 {
        '6'
    } else if d == 7 {
        '7'
    } else if d == 8 {
        '8'
    } else {
        '9'
    }
}

/// Appends the decimal representation of `n` to `s`.
pub fn push_decimal(s: &mut String, n: u64)
    ensures
        final(s)@ == old(s)@ + decimal(n as nat),
    decreases n,
{
    if n >= 10 {
        push_decimal(s, n / 10);
    }
    push_char(s, digit_to_char(n % 10));
    proof {
        if n < 10 {
            assert(old(s)@ + decimal(n as nat) =~= old(s)@.push(digit_char(n as nat)));
        } else {
            assert(old(s)@ + decimal(n as nat) =~= (old(s)@ + decimal((n / 10) as nat)).push(
                digit_char((n % 10) as nat),
            ));
        }
    }
}

proof fn lemma_digit_char(d: nat)
    requires
        d < 10,
    ensures
        is_digit(digit_char(d)),
        digit_value(digit_char(d)) == d,
{
}

pub proof fn lemma_decimal_digits(n: nat)
    ensures
        decimal(n).len() >= 1,
        all_digits(decimal(n)),
        digits_value(decimal(n)) == n,
    decreases n,
{
    if n < 10 {
        lemma_digit_char(n);
        let d = decimal(n);
        assert(d.drop_last() =~= Seq::<char>::empty());
        assert(digits_value(d) == digits_value(d.drop_last()) * 10 + digit_value(d.last()));
    } else {
        lemma_decimal_digits(n / 10);
        lemma_digit_char(n % 10);
        let d = decimal(n);
        let prev = decimal(n / 10);
        assert(d.drop_last() =~= prev);
        assert forall|i: int| 0 <= i < d.len() implies is_digit(#[trigger] d[i]) by {
            if i < prev.len() {
                assert(d[i] == prev[i]);
            }
        }
        assert(digits_value(d) == digits_value(prev) * 10 + digit_value(d.last()));
    }
}

/// Printing a number and reading it back gives the number: `parse::<u64>`
/// of what `{}` prints for `n` is `n`.
pub proof fn lemma_parse_decimal_roundtrip(n: u64)
    ensures
        parse_u64(decimal(n as nat)) == Some(n),
{
    lemma_decimal_digits(n as nat);
    let d = decimal(n as nat);
    assert(is_digit(d[0]));
    assert(unsigned_body(d) == d);
}

/// The decimal representation of `n`.
pub fn decimal_string(n: u64) -> (r: String)
    ensures
        r@ == decimal(n as nat),
{
    let mut r = String::new();
    push_decimal(&mut r, n);
    proof {
        assert(Seq::<char>::empty() + decimal(n as nat) =~= decimal(n as nat));
    }
    r
}

} // verus!
