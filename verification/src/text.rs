//! Character-level text handling shared by the extractor and the crawler.

use vstd::prelude::*;

verus! {

/// The Unicode `White_Space` property, which `char::is_whitespace`,
/// `str::trim` and `str::split_whitespace` are documented to follow.
pub open spec fn is_space(c: char) -> bool {
    ||| ('\u{9}' <= c && c <= '\u{d}')
    ||| c == ' '
    ||| c == '\u{85}'
    ||| c == '\u{a0}'
    ||| c == '\u{1680}'
    ||| ('\u{2000}' <= c && c <= '\u{200a}')
    ||| c == '\u{2028}'
    ||| c == '\u{2029}'
    ||| c == '\u{202f}'
    ||| c == '\u{205f}'
    ||| c == '\u{3000}'
}

pub fn is_space_char(c: char) -> (r: bool)
    ensures
        r == is_space(c),
{
    ('\u{9}' <= c && c <= '\u{d}') || c == ' ' || c == '\u{85}' || c == '\u{a0}' || c
        == '\u{1680}' || ('\u{2000}' <= c && c <= '\u{200a}') || c == '\u{2028}' || c
        == '\u{2029}' || c == '\u{202f}' || c == '\u{205f}' || c == '\u{3000}'
}

/// `s` with its leading whitespace removed.
pub open spec fn trim_start(s: Seq<char>) -> Seq<char>
    decreases s.len(),
{
    if s.len() > 0 && is_space(s[0]) {
        trim_start(s.drop_first())
    } else {
        s
    }
}

/// `s` with its trailing whitespace removed.
pub open spec fn trim_end(s: Seq<char>) -> Seq<char>
    decreases s.len(),
{
    if s.len() > 0 && is_space(s.last()) {
        trim_end(s.drop_last())
    } else {
        s
    }
}

/// `s` with leading and trailing whitespace removed.
pub open spec fn trim(s: Seq<char>) -> Seq<char> {
    trim_end(trim_start(s))
}

/// `s` holds at least one character that is not whitespace.
pub open spec fn has_visible(s: Seq<char>) -> bool {
    exists|i: int| 0 <= i < s.len() && !is_space(#[trigger] s[i])
}

/// Trimming leaves something exactly when the text holds a visible character.
pub proof fn lemma_trim_empty_iff_blank(s: Seq<char>)
    ensures
        (trim(s).len() == 0) <==> !has_visible(s),
{
    lemma_trim_start_blank(s);
    lemma_trim_end_blank(trim_start(s));
}

proof fn lemma_trim_start_blank(s: Seq<char>)
    ensures
        (trim_start(s).len() == 0) <==> !has_visible(s),
        trim_start(s).len() > 0 ==> !is_space(trim_start(s)[0]),
    decreases s.len(),
{
    if s.len() > 0 && is_space(s[0]) {
        lemma_trim_start_blank(s.drop_first());
        if has_visible(s) {
            let i = choose|i: int| 0 <= i < s.len() && !is_space(#[trigger] s[i]);
            assert(s.drop_first()[i - 1] == s[i]);
        }
        if has_visible(s.drop_first()) {
            let i = choose|i: int| 0 <= i < s.len() - 1 && !is_space(#[trigger] s.drop_first()[i]);
            assert(s[i + 1] == s.drop_first()[i]);
        }
    } else if s.len() > 0 {
        assert(!is_space(s[0]));
    }
}

proof fn lemma_trim_end_blank(s: Seq<char>)
    requires
        s.len() > 0 ==> !is_space(s[0]),
    ensures
        (trim_end(s).len() == 0) <==> (s.len() == 0),
    decreases s.len(),
{
    if s.len() > 0 && is_space(s.last()) {
        assert(s.len() > 1);
        lemma_trim_end_blank(s.drop_last());
    }
}

/// Characters of a string slice, in order.
#[verifier::external_body]
pub(crate) fn chars_of(s: &str) -> (res: Vec<char>)
    ensures
        res@ == s@,
{
    s.chars().collect()
}

/// Appends one character (`String::push`).
#[verifier::external_body]
pub(crate) fn push_char(s: &mut String, c: char)
    ensures
        final(s)@ == old(s)@.push(c),
{
    s.push(c)
}

/// `str::trim`: the slice without leading and trailing whitespace.
#[verifier::external_body]
pub(crate) fn trim_str(s: &str) -> (res: &str)
    ensures
        res@ == trim(s@),
{
    s.trim()
}

/// Whether `s` is blank, that is, holds only whitespace.
pub fn is_blank(s: &str) -> (r: bool)
    ensures
        r == !has_visible(s@),
{
    let t = trim_str(s);
    proof {
        lemma_trim_empty_iff_blank(s@);
    }
    t.is_empty()
}

/// Pieces of text joined with a single space between neighbours.
pub open spec fn join_spaced(pieces: Seq<Seq<char>>) -> Seq<char>
    decreases pieces.len(),
{
    if pieces.len() == 0 {
        seq![]
    } else if pieces.len() == 1 {
        pieces[0]
    } else {
        join_spaced(pieces.drop_last()) + seq![' '] + pieces.last()
    }
}

/// The words of `s` (maximal runs of non-whitespace) separated by single
/// spaces: whitespace is dropped, and a space is written before a word that
/// follows whitespace and some earlier word.
pub open spec fn collapse_spaces(s: Seq<char>) -> Seq<char>
    decreases s.len(),
{
    if s.len() == 0 {
        seq![]
    } else {
        let prev = collapse_spaces(s.drop_last());
        let c = s.last();
        if is_space(c) {
            prev
        } else if s.len() >= 2 && is_space(s[s.len() - 2]) && prev.len() > 0 {
            prev.push(' ').push(c)
        } else {
            prev.push(c)
        }
    }
}

/// The text of pieces joined by spaces, with whitespace runs collapsed.
pub open spec fn normalized_text(pieces: Seq<Seq<char>>) -> Seq<char> {
    collapse_spaces(join_spaced(pieces))
}

/// Feeds one character into the collapsing state.
fn collapse_step(out: &mut String, after_space: &mut bool, c: char, Ghost(seen): Ghost<Seq<char>>)
    requires
        old(out)@ == collapse_spaces(seen),
        *old(after_space) == (seen.len() > 0 && is_space(seen.last())),
    ensures
        final(out)@ == collapse_spaces(seen.push(c)),
        *final(after_space) == is_space(c),
{
    let ghost s = seen.push(c);
    assert(s.drop_last() == seen);
    if is_space_char(c) {
        *after_space = true;
    } else {
        if *after_space && !out.as_str().is_empty() {
            assert(s[s.len() - 2] == seen.last());
            push_char(out, ' ');
        } else {
            proof {
                if seen.len() > 0 {
                    assert(s[s.len() - 2] == seen.last());
                }
            }
        }
        push_char(out, c);
        *after_space = false;
    }
}

/// Joins the text pieces with spaces and collapses every whitespace run to
/// one space, dropping leading and trailing whitespace.
pub fn normalize_text(pieces: &Vec<String>) -> (res: String)
    ensures
        res@ == normalized_text(pieces.deep_view()),
{
    let mut out = String::new();
    let mut after_space = false;
    let ghost mut seen: Seq<char> = seq![];
    let mut i: usize = 0;
    while i < pieces.len()
        invariant
            i <= pieces.len(),
            seen == join_spaced(pieces.deep_view().take(i as int)),
            out@ == collapse_spaces(seen),
            after_space == (seen.len() > 0 && is_space(seen.last())),
        decreases pieces.len() - i,
    {
        let ghost dv = pieces.deep_view();
        assert(dv.take(i + 1).drop_last() == dv.take(i as int));
        assert(dv.take(i + 1).last() == pieces[i as int]@);
        let ghost before = seen;
        if i > 0 {
            collapse_step(&mut out, &mut after_space, ' ', Ghost(seen));
            proof {
                seen = seen.push(' ');
            }
        }
        let cs = chars_of(pieces[i].as_str());
        let mut j: usize = 0;
        while j < cs.len()
            invariant
                j <= cs.len(),
                cs@ == pieces[i as int]@,
                seen == (if i > 0 { before + seq![' '] } else { before }) + cs@.take(j as int),
                out@ == collapse_spaces(seen),
                after_space == (seen.len() > 0 && is_space(seen.last())),
            decreases cs.len() - j,
        {
            collapse_step(&mut out, &mut after_space, cs[j], Ghost(seen));
            proof {
                assert(cs@.take(j + 1) == cs@.take(j as int).push(cs@[j as int]));
                seen = seen.push(cs@[j as int]);
            }
            j = j + 1;
        }
        proof {
            assert(cs@.take(j as int) == cs@);
            if i == 0 {
                assert(dv.take(1).len() == 1);
                assert(before == Seq::<char>::empty());
                assert(seen == dv.take(1)[0]);
            }
        }
        i = i + 1;
    }
    assert(pieces.deep_view().take(i as int) == pieces.deep_view());
    out
}

} // verus!

verus! {

/// `prefix` is an initial segment of `s`.
pub open spec fn starts_with(s: Seq<char>, prefix: Seq<char>) -> bool {
    prefix.len() <= s.len() && s.take(prefix.len() as int) == prefix
}

/// Whether the first `n` characters of `p` are an initial segment of `s`.
pub fn chars_start_with(s: &Vec<char>, p: &Vec<char>, n: usize) -> (r: bool)
    requires
        n <= p.len(),
    ensures
        r == starts_with(s@, p@.take(n as int)),
{
    if n > s.len() {
        return false;
    }
    let mut i: usize = 0;
    while i < n
        invariant
            i <= n <= p.len(),
            n <= s.len(),
            forall|k: int| 0 <= k < i ==> s@[k] == p@[k],
        decreases n - i,
    {
        if s[i] != p[i] {
            assert(s@.take(n as int)[i as int] != p@.take(n as int)[i as int]);
            return false;
        }
        i = i + 1;
    }
    assert(s@.take(n as int) =~= p@.take(n as int));
    true
}

/// Whether two character sequences are equal.
pub fn chars_equal(a: &Vec<char>, b: &Vec<char>) -> (r: bool)
    ensures
        r == (a@ == b@),
{
    if a.len() != b.len() {
        return false;
    }
    let r = chars_start_with(a, b, b.len());
    assert(b@.take(b.len() as int) == b@);
    assert(r ==> a@ =~= b@);
    r
}

} // verus!

verus! {

/// The character of a decimal or lowercase hexadecimal digit value.
pub open spec fn digit_char(d: int) -> char {
    if d < 10 {
        (48 + d) as char
    } else {
        (87 + d) as char
    }
}

pub fn digit(d: u8) -> (c: char)
    requires
        d < 16,
    ensures
        c == digit_char(d as int),
{
    if d < 10 {
        (48u8 + d) as char
    } else {
        (87u8 + d) as char
    }
}

/// Decimal notation of `n`, most significant digit first, without leading zeros.
pub open spec fn decimal(n: nat) -> Seq<char>
    decreases n,
{
    if n < 10 {
        seq![digit_char(n as int)]
    } else {
        decimal(n / 10).push(digit_char((n % 10) as int))
    }
}

/// Appends the decimal notation of `n`.
pub fn push_decimal(s: &mut String, n: usize)
    ensures
        final(s)@ == old(s)@ + decimal(n as nat),
    decreases n,
{
    if n >= 10 {
        push_decimal(s, n / 10);
    }
    let d = (n % 10) as u8;
    push_char(s, digit(d));
    assert(decimal(n as nat) == if n < 10 { seq![digit_char(n as int)] } else {
        decimal((n / 10) as nat).push(digit_char((n % 10) as int))
    });
}

/// Decimal notation is made of ASCII digits only and reads back as the number.
pub proof fn lemma_decimal_reads_back(n: nat)
    ensures
        all_digits(decimal(n)),
        digits_value(decimal(n)) == n,
    decreases n,
{
    if n < 10 {
        let c = digit_char(n as int);
        assert(c as int == 48 + n);
        assert(decimal(n).drop_last() =~= Seq::<char>::empty());
        assert(decimal(n).last() == c);
        assert(digits_value(decimal(n)) == digits_value(decimal(n).drop_last()) * 10 + (c as int - 48));
    } else {
        lemma_decimal_reads_back(n / 10);
        let c = digit_char((n % 10) as int);
        assert(c as int == 48 + n % 10);
        assert(decimal(n).drop_last() =~= decimal(n / 10));
        assert(decimal(n).last() == c);
        assert(digits_value(decimal(n)) == digits_value(decimal(n / 10)) * 10 + (c as int - 48));
        assert(n / 10 * 10 + n % 10 == n);
    }
}

/// Two numbers with the same decimal notation are equal.
pub proof fn lemma_decimal_injective(a: nat, b: nat)
    ensures
        decimal(a) == decimal(b) ==> a == b,
{
    lemma_decimal_reads_back(a);
    lemma_decimal_reads_back(b);
}

/// Two texts that each end in a separator followed by digits only end in
/// the same digits when they are equal.
pub proof fn lemma_digit_suffix_after_separator(a: Seq<char>, d1: Seq<char>, b: Seq<char>, d2: Seq<char>, sep: char)
    requires
        all_digits(d1),
        all_digits(d2),
        !('0' <= sep && sep <= '9'),
        a + seq![sep] + d1 == b + seq![sep] + d2,
    ensures
        d1 == d2,
{
    let s = a + seq![sep] + d1;
    let t = b + seq![sep] + d2;
    if d1.len() < d2.len() {
        let k = s.len() - d1.len() - 1;
        assert(s[k] == sep);
        assert(t[k] == d2[k - b.len() - 1]);
    } else if d2.len() < d1.len() {
        let k = t.len() - d2.len() - 1;
        assert(t[k] == sep);
        assert(s[k] == d1[k - a.len() - 1]);
    }
    assert(d1 =~= s.skip(s.len() - d1.len()));
    assert(d2 =~= t.skip(t.len() - d2.len()));
}

/// Two lowercase hexadecimal digits per byte, high nibble first.
pub open spec fn hex_lower(bytes: Seq<u8>) -> Seq<char>
    decreases bytes.len(),
{
    if bytes.len() == 0 {
        seq![]
    } else {
        hex_lower(bytes.drop_last()) + seq![
            digit_char((bytes.last() / 16) as int),
            digit_char((bytes.last() % 16) as int),
        ]
    }
}

pub proof fn lemma_hex_lower_len(bytes: Seq<u8>)
    ensures
        hex_lower(bytes).len() == 2 * bytes.len(),
    decreases bytes.len(),
{
    if bytes.len() > 0 {
        lemma_hex_lower_len(bytes.drop_last());
    }
}

/// The characters `0`-`9` and `a`-`f`.
pub open spec fn is_lower_hex_digit(c: char) -> bool {
    ('0' <= c && c <= '9') || ('a' <= c && c <= 'f')
}

pub proof fn lemma_hex_lower_digits(bytes: Seq<u8>)
    ensures
        forall|i: int| 0 <= i < hex_lower(bytes).len() ==> is_lower_hex_digit(#[trigger] hex_lower(bytes)[i]),
    decreases bytes.len(),
{
    if bytes.len() > 0 {
        lemma_hex_lower_digits(bytes.drop_last());
        lemma_hex_lower_len(bytes.drop_last());
        let b = bytes.last();
        assert(b / 16 < 16 && b % 16 < 16);
    }
}

/// Lowercase hexadecimal notation of the bytes.
pub fn to_hex_lower(bytes: &Vec<u8>) -> (s: String)
    ensures
        s@ == hex_lower(bytes@),
{
    let mut s = String::new();
    let mut i: usize = 0;
    while i < bytes.len()
        invariant
            i <= bytes.len(),
            s@ == hex_lower(bytes@.take(i as int)),
        decreases bytes.len() - i,
    {
        let b = bytes[i];
        assert(bytes@.take(i + 1).drop_last() == bytes@.take(i as int));
        push_char(&mut s, digit(b / 16));
        push_char(&mut s, digit(b % 16));
        assert(s@ =~= hex_lower(bytes@.take(i + 1)));
        i = i + 1;
    }
    assert(bytes@.take(i as int) == bytes@);
    s
}

/// The value of a sequence of ASCII decimal digits.
pub open spec fn digits_value(ds: Seq<char>) -> int
    decreases ds.len(),
{
    if ds.len() == 0 {
        0
    } else {
        digits_value(ds.drop_last()) * 10 + (ds.last() as int - 48)
    }
}

/// Every character is an ASCII decimal digit.
pub open spec fn all_digits(ds: Seq<char>) -> bool {
    forall|i: int| 0 <= i < ds.len() ==> '0' <= #[trigger] ds[i] && ds[i] <= '9'
}

/// What `<i32 as FromStr>::from_str` accepts: an optional `+` or `-`, then
/// one or more ASCII digits, whose value fits in an `i32`.
pub open spec fn parse_i32(s: Seq<char>) -> Option<int> {
    let negative = s.len() > 0 && s[0] == '-';
    let ds = if s.len() > 0 && (s[0] == '-' || s[0] == '+') {
        s.drop_first()
    } else {
        s
    };
    if ds.len() == 0 || !all_digits(ds) {
        None
    } else {
        let v = if negative {
            -digits_value(ds)
        } else {
            digits_value(ds)
        };
        if i32::MIN <= v <= i32::MAX {
            Some(v)
        } else {
            None
        }
    }
}

proof fn lemma_digits_value_nonneg(ds: Seq<char>)
    requires
        all_digits(ds),
    ensures
        digits_value(ds) >= 0,
    decreases ds.len(),
{
    if ds.len() > 0 {
        assert(all_digits(ds.drop_last()));
        lemma_digits_value_nonneg(ds.drop_last());
    }
}

/// Parses the characters `s[from..]` as an `i32` the way `str::parse::<i32>` does.
pub fn parse_i32_from(s: &Vec<char>, from: usize) -> (r: Option<i32>)
    requires
        from <= s.len(),
    ensures
        match r {
            Some(v) => parse_i32(s@.skip(from as int)) == Some(v as int),
            None => parse_i32(s@.skip(from as int)) is None,
        },
{
    let ghost t = s@.skip(from as int);
    let mut start = from;
    let mut negative = false;
    if from < s.len() && (s[from] == '-' || s[from] == '+') {
        negative = s[from] == '-';
        start = from + 1;
    }
    let ghost ds = s@.skip(start as int);
    assert(ds == if t.len() > 0 && (t[0] == '-' || t[0] == '+') { t.drop_first() } else { t });
    if start == s.len() {
        return None;
    }
    // `acc` is the value of the digits read so far, capped at `cap`.
    let cap: i64 = 2147483649;
    let mut acc: i64 = 0;
    let mut i = start;
    while i < s.len()
        invariant
            start <= i <= s.len(),
            from <= start,
            t == s@.skip(from as int),
            ds == s@.skip(start as int),
            ds == if t.len() > 0 && (t[0] == '-' || t[0] == '+') { t.drop_first() } else { t },
            0 <= acc <= cap,
            cap == 2147483649,
            all_digits(s@.subrange(start as int, i as int)),
            acc == if digits_value(s@.subrange(start as int, i as int)) >= cap {
                cap as int
            } else {
                digits_value(s@.subrange(start as int, i as int))
            },
        decreases s.len() - i,
    {
        let c = s[i];
        let ghost pre = s@.subrange(start as int, i as int);
        let ghost next = s@.subrange(start as int, i + 1);
        assert(next.drop_last() == pre);
        if !('0' <= c && c <= '9') {
            assert(ds[i - start] == c);
            assert(!('0' <= ds[i - start] && ds[i - start] <= '9'));
            assert(!all_digits(ds));
            return None;
        }
        assert forall|k: int| 0 <= k < next.len() implies '0' <= #[trigger] next[k] && next[k] <= '9' by {
            if k < pre.len() {
                assert(next[k] == pre[k]);
            }
        }
        proof {
            lemma_digits_value_nonneg(pre);
        }
        let d = (c as u32 - 48) as i64;
        let grown = acc * 10 + d;
        acc = if grown >= cap { cap } else { grown };
        i = i + 1;
    }
    assert(s@.subrange(start as int, i as int) == ds);
    proof {
        lemma_digits_value_nonneg(ds);
    }
    let v: i64 = if negative { -acc } else { acc };
    if -2147483648 <= v && v <= 2147483647 {
        Some(v as i32)
    } else {
        None
    }
}


/// Collapsed text holds no whitespace but single spaces, each between two
/// visible characters: no leading, trailing or doubled spaces.
pub open spec fn is_collapsed(r: Seq<char>) -> bool {
    forall|i: int|
        0 <= i < r.len() && is_space(#[trigger] r[i]) ==> r[i] == ' ' && 0 < i < r.len() - 1 && !is_space(
            r[i - 1],
        ) && !is_space(r[i + 1])
}

/// Collapsing whitespace leaves single spaces between words only, and
/// collapsing again changes nothing.
pub proof fn law_collapse_spaces_normal_form(s: Seq<char>)
    ensures
        is_collapsed(collapse_spaces(s)),
        collapse_spaces(s).len() > 0 ==> !is_space(collapse_spaces(s).last()),
    decreases s.len(),
{
    if s.len() > 0 {
        law_collapse_spaces_normal_form(s.drop_last());
        let prev = collapse_spaces(s.drop_last());
        let r = collapse_spaces(s);
        let c = s.last();
        if !is_space(c) {
            assert forall|i: int| 0 <= i < r.len() && is_space(#[trigger] r[i]) implies r[i] == ' ' && 0 < i
                < r.len() - 1 && !is_space(r[i - 1]) && !is_space(r[i + 1]) by {
                if i < prev.len() {
                    assert(r[i] == prev[i]);
                    if i + 1 < prev.len() {
                        assert(r[i + 1] == prev[i + 1]);
                    }
                    assert(r[i - 1] == prev[i - 1]);
                }
            }
        }
    }
}

/// Collapsing collapsed text changes nothing.
pub proof fn law_collapse_spaces_idempotent(s: Seq<char>)
    ensures
        collapse_spaces(collapse_spaces(s)) == collapse_spaces(s),
{
    law_collapse_spaces_normal_form(s);
    lemma_collapsed_fixed(collapse_spaces(s));
}

proof fn lemma_collapsed_fixed(r: Seq<char>)
    requires
        is_collapsed(r),
        r.len() > 0 ==> !is_space(r.last()),
    ensures
        collapse_spaces(r) == r,
    decreases r.len(),
{
    if r.len() > 0 {
        let p = r.drop_last();
        if p.len() > 0 && is_space(p.last()) {
            // a space never ends the text before a visible last character
            let i = p.len() - 1;
            assert(is_space(r[i]));
            assert(r[i] == ' ');
            assert(p.drop_last().len() > 0);
            let q = p.drop_last();
            assert forall|j: int| 0 <= j < q.len() && is_space(#[trigger] q[j]) implies q[j] == ' ' && 0 < j < q.len() - 1
                && !is_space(q[j - 1]) && !is_space(q[j + 1]) by {
                assert(q[j] == r[j]);
                assert(is_space(r[j]));
                assert(r[j + 1] == q[j + 1] || j + 1 == q.len());
                assert(r[j - 1] == q[j - 1]);
            }
            assert(!is_space(q.last())) by {
                assert(q.last() == r[i - 1]);
            }
            lemma_collapsed_fixed(q);
            assert(collapse_spaces(p) == collapse_spaces(q));
            assert(q.len() > 0);
            assert(collapse_spaces(r) =~= q.push(' ').push(r.last()));
            assert(q.push(' ').push(r.last()) =~= r);
        } else {
            assert forall|j: int| 0 <= j < p.len() && is_space(#[trigger] p[j]) implies p[j] == ' ' && 0 < j < p.len() - 1
                && !is_space(p[j - 1]) && !is_space(p[j + 1]) by {
                assert(p[j] == r[j]);
                assert(is_space(r[j]));
                assert(r[j - 1] == p[j - 1]);
                assert(r[j + 1] == p[j + 1]);
            }
            lemma_collapsed_fixed(p);
            assert(collapse_spaces(r) =~= p.push(r.last()));
        }
    }
}

} // verus!
