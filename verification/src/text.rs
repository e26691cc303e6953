//! Character-level helpers: converting between strings and character
//! vectors, decimal and hexadecimal rendering, ASCII case folding and
//! whitespace normalization.
use vstd::prelude::*;

verus! {

/// `String::push` appends one character.
pub assume_specification[ String::push ](s: &mut String, ch: char)
    ensures
        final(s)@ == old(s)@.push(ch),
;

/// The character for a digit value below sixteen (lowercase for the letters).
pub open spec fn digit_char(d: int) -> char {
    if d == 0 { '0' }
    else if d == 1 { '1' }
    else if d == 2 { '2' }
    else if d == 3 { '3' }
    else if d == 4 { '4' }
    else if d == 5 { '5' }
    else if d == 6 { '6' }
    else if d == 7 { '7' }
    else if d == 8 { '8' }
    else if d == 9 { '9' }
    else if d == 10 { 'a' }
    else if d == 11 { 'b' }
    else if d == 12 { 'c' }
    else if d == 13 { 'd' }
    else if d == 14 { 'e' }
    else { 'f' }
}

/// The digits of `n` in base `base`, most significant first, without
/// leading zeros (zero itself is the single digit `0`).
pub open spec fn digits(n: nat, base: nat) -> Seq<char>
    recommends
        2 <= base <= 16,
    decreases n,
{
    if base < 2 || n < base {
        seq![digit_char(n as int)]
    } else {
        proof {
            assert(n / base < n) by (nonlinear_arith)
                requires
                    n >= base,
                    base >= 2,
            ;
        }
        digits(n / base, base).push(digit_char((n % base) as int))
    }
}

/// `s` preceded by as many `0` as needed to reach `width` characters.
pub open spec fn zero_pad(s: Seq<char>, width: nat) -> Seq<char> {
    if s.len() >= width {
        s
    } else {
        Seq::new((width - s.len()) as nat, |i: int| '0') + s
    }
}

/// What `format!("{:0w$}", n)` gives for a non-negative number.
pub open spec fn padded_decimal(n: nat, width: nat) -> Seq<char> {
    zero_pad(digits(n, 10), width)
}

/// What `format!("{:0w$}", n)` gives for a signed number: the sign counts
/// towards the width and the zeros go between sign and digits.
pub open spec fn padded_signed_decimal(n: int, width: nat) -> Seq<char> {
    if n < 0 {
        seq!['-'] + zero_pad(digits((-n) as nat, 10), if width >= 1 { (width - 1) as nat } else { 0 })
    } else {
        zero_pad(digits(n as nat, 10), width)
    }
}

/// What `format!("{:032x}", h)` gives: lowercase hexadecimal, zero-padded to
/// thirty-two digits.
pub open spec fn hex32(h: u128) -> Seq<char> {
    zero_pad(digits(h as nat, 16), 32)
}

fn digit(d: u128) -> (c: char)
    requires
        d < 16,
    ensures
        c == digit_char(d as int),
{
    if d == 0 { '0' }
    else if d == 1 { '1' }
    else if d == 2 { '2' }
    else if d == 3 { '3' }
    else if d == 4 { '4' }
    else if d == 5 { '5' }
    else if d == 6 { '6' }
    else if d == 7 { '7' }
    else if d == 8 { '8' }
    else if d == 9 { '9' }
    else if d == 10 { 'a' }
    else if d == 11 { 'b' }
    else if d == 12 { 'c' }
    else if d == 13 { 'd' }
    else if d == 14 { 'e' }
    else { 'f' }
}

/// Appends the digits of `n` in base `base`.
fn push_digits(out: &mut Vec<char>, n: u128, base: u128)
    requires
        2 <= base <= 16,
    ensures
        final(out)@ == old(out)@ + digits(n as nat, base as nat),
    decreases n,
{
    if n < base {
        out.push(digit(n));
    } else {
        assert(n / base < n) by (nonlinear_arith)
            requires
                n >= base,
                base >= 2,
        ;
        push_digits(out, n / base, base);
        out.push(digit(n % base));
    }
}

/// Appends `n` in base `base`, zero-padded to `width` digits.
pub fn push_padded(out: &mut String, n: u128, base: u128, width: usize)
    requires
        2 <= base <= 16,
    ensures
        final(out)@ == old(out)@ + zero_pad(digits(n as nat, base as nat), width as nat),
{
    let mut ds: Vec<char> = Vec::new();
    push_digits(&mut ds, n, base);
    assert(ds@ =~= digits(n as nat, base as nat));
    let len = ds.len();
    let ghost start = out@;
    let mut i: usize = len;
    while i < width
        invariant
            len <= i,
            i <= width || i == len,
            len == digits(n as nat, base as nat).len(),
            out@ == start + Seq::new((i - len) as nat, |k: int| '0'),
        decreases width - i,
    {
        out.push('0');
        i = i + 1;
        assert(out@ =~= start + Seq::new((i - len) as nat, |k: int| '0'));
    }
    let mut j: usize = 0;
    let ghost zeros = out@;
    while j < len
        invariant
            j <= len,
            len == ds.len(),
            ds@ == digits(n as nat, base as nat),
            out@ == zeros + ds@.take(j as int),
        decreases len - j,
    {
        out.push(ds[j]);
        j = j + 1;
        assert(out@ =~= zeros + ds@.take(j as int));
    }
    proof {
        assert(ds@.take(len as int) =~= ds@);
        if len >= width {
            assert(i == len);
            assert(out@ =~= start + digits(n as nat, base as nat));
        } else {
            assert(i == width);
            assert(out@ =~= start + (Seq::new((width - len) as nat, |k: int| '0') + digits(n as nat, base as nat)));
        }
    }
}

/// Appends a signed number in decimal, zero-padded as `{:0w$}` does.
pub fn push_signed_padded(out: &mut String, n: i32, width: usize)
    requires
        width >= 1,
    ensures
        final(out)@ == old(out)@ + padded_signed_decimal(n as int, width as nat),
{
    if n < 0 {
        out.push('-');
        let magnitude: u128 = if n == i32::MIN { 2147483648 } else { (-n) as u128 };
        let ghost after_sign = out@;
        push_padded(out, magnitude, 10, width - 1);
        assert(out@ =~= old(out)@ + padded_signed_decimal(n as int, width as nat));
    } else {
        push_padded(out, n as u128, 10, width);
    }
}

/// Appends every character of `s`.
pub fn push_str(out: &mut String, s: &str)
    ensures
        final(out)@ == old(out)@ + s@,
{
    out.append(s);
}

/// The characters of `s`, in order.
pub fn chars_of(s: &str) -> (v: Vec<char>)
    ensures
        v@ == s@,
{
    let mut v: Vec<char> = Vec::new();
    for c in it: s.chars()
        invariant
            v@ == it.seq().take(it.index() as int),
            it.seq() == s@,
    {
        proof {
            assert(it.seq().take(it.index() + 1) =~= it.seq().take(it.index() as int).push(c));
        }
        v.push(c);
    }
    assert(v@ =~= s@);
    v
}

/// The string made of the characters in `cs`.
pub fn string_of(cs: &[char]) -> (s: String)
    ensures
        s@ == cs@,
{
    let mut s = String::new();
    let mut i: usize = 0;
    while i < cs.len()
        invariant
            i <= cs.len(),
            s@ == cs@.take(i as int),
        decreases cs.len() - i,
    {
        s.push(cs[i]);
        i = i + 1;
        assert(s@ =~= cs@.take(i as int));
    }
    assert(s@ =~= cs@);
    s
}

/// The string holding the characters of `s`.
pub fn owned(s: &str) -> (r: String)
    ensures
        r@ == s@,
{
    String::from_str(s)
}

/// Whether two strings hold the same characters.
pub fn same_text(a: &str, b: &str) -> (r: bool)
    ensures
        r == (a@ == b@),
{
    let x = chars_of(a);
    let y = chars_of(b);
    if x.len() != y.len() {
        return false;
    }
    let mut i: usize = 0;
    while i < x.len()
        invariant
            x@ == a@,
            y@ == b@,
            x.len() == y.len(),
            i <= x.len(),
            forall|k: int| 0 <= k < i ==> x@[k] == y@[k],
        decreases x.len() - i,
    {
        if x[i] != y[i] {
            return false;
        }
        i = i + 1;
    }
    assert(x@ =~= y@);
    true
}

/// Whether `prefix` is a prefix of `s`, comparing characters.
pub fn chars_start_with(s: &[char], prefix: &[char]) -> (r: bool)
    ensures
        r == prefix@.is_prefix_of(s@),
{
    if prefix.len() > s.len() {
        return false;
    }
    let mut i: usize = 0;
    while i < prefix.len()
        invariant
            prefix.len() <= s.len(),
            i <= prefix.len(),
            forall|k: int| 0 <= k < i ==> prefix@[k] == s@[k],
        decreases prefix.len() - i,
    {
        if prefix[i] != s[i] {
            return false;
        }
        i = i + 1;
    }
    assert(prefix@ =~= s@.take(prefix@.len() as int));
    true
}

/// Whether `prefix` is a prefix of `s`.
pub fn str_starts_with(s: &str, prefix: &str) -> (r: bool)
    ensures
        r == prefix@.is_prefix_of(s@),
{
    let x = chars_of(s);
    let y = chars_of(prefix);
    chars_start_with(x.as_slice(), y.as_slice())
}

/// ASCII lowercase of one character, as `char::to_ascii_lowercase` does.
pub open spec fn ascii_lower_char(c: char) -> char {
    if 'A' <= c && c <= 'Z' {
        ((c as u32) + 32) as char
    } else {
        c
    }
}

/// ASCII lowercase of a string, as `str::to_ascii_lowercase` does.
pub open spec fn ascii_lower(s: Seq<char>) -> Seq<char> {
    s.map_values(|c: char| ascii_lower_char(c))
}

/// ASCII uppercase of one character, as `char::to_ascii_uppercase` does.
pub open spec fn ascii_upper_char(c: char) -> char {
    if 'a' <= c && c <= 'z' {
        ((c as u32) - 32) as char
    } else {
        c
    }
}

/// ASCII uppercase of a string, as `str::to_ascii_uppercase` does.
pub open spec fn ascii_upper(s: Seq<char>) -> Seq<char> {
    s.map_values(|c: char| ascii_upper_char(c))
}

/// Lowercasing forgets an earlier upper- or lowercasing.
pub proof fn lemma_ascii_lower_absorbs(s: Seq<char>)
    ensures
        ascii_lower(ascii_upper(s)) == ascii_lower(s),
        ascii_lower(ascii_lower(s)) == ascii_lower(s),
{
    assert forall|i: int| 0 <= i < s.len() implies #[trigger] ascii_lower_char(ascii_upper_char(s[i]))
        == ascii_lower_char(s[i]) && ascii_lower_char(ascii_lower_char(s[i])) == ascii_lower_char(
        s[i],
    ) by {
        let c = s[i];
        let v = c as u32;
        if 'a' <= c && c <= 'z' {
            assert(ascii_upper_char(c) as u32 == v - 32);
        } else if 'A' <= c && c <= 'Z' {
            assert(ascii_lower_char(c) as u32 == v + 32);
        }
    }
    assert(ascii_lower(ascii_upper(s)) =~= ascii_lower(s));
    assert(ascii_lower(ascii_lower(s)) =~= ascii_lower(s));
}

pub fn lower_char(c: char) -> (r: char)
    ensures
        r == ascii_lower_char(c),
{
    if 'A' <= c && c <= 'Z' {
        let v: u32 = c as u32 + 32;
        char_from_ascii(v)
    } else {
        c
    }
}

/// The character of an ASCII code point.
fn char_from_ascii(v: u32) -> (c: char)
    requires
        v < 128,
    ensures
        c == v as char,
{
    let b: u8 = v as u8;
    b as char
}

/// ASCII lowercase of a character vector.
pub fn lower_chars(s: &[char]) -> (r: Vec<char>)
    ensures
        r@ == ascii_lower(s@),
{
    let mut r: Vec<char> = Vec::new();
    let mut i: usize = 0;
    while i < s.len()
        invariant
            i <= s.len(),
            r@ == ascii_lower(s@.take(i as int)),
        decreases s.len() - i,
    {
        r.push(lower_char(s[i]));
        i = i + 1;
        assert(ascii_lower(s@.take(i as int)) =~= ascii_lower(s@.take((i - 1) as int)).push(
            ascii_lower_char(s@[i - 1]),
        ));
    }
    assert(s@.take(s.len() as int) =~= s@);
    r
}

/// Whether `c` has the Unicode `White_Space` property, as
/// `char::is_whitespace` decides.
pub open spec fn is_white_space(c: char) -> bool {
    let v = c as u32;
    ||| 0x09 <= v <= 0x0D
    ||| v == 0x20
    ||| v == 0x85
    ||| v == 0xA0
    ||| v == 0x1680
    ||| 0x2000 <= v <= 0x200A
    ||| v == 0x2028
    ||| v == 0x2029
    ||| v == 0x202F
    ||| v == 0x205F
    ||| v == 0x3000
}

pub fn white_space(c: char) -> (r: bool)
    ensures
        r == is_white_space(c),
{
    let v: u32 = c as u32;
    (0x09 <= v && v <= 0x0D) || v == 0x20 || v == 0x85 || v == 0xA0 || v == 0x1680 || (0x2000 <= v
        && v <= 0x200A) || v == 0x2028 || v == 0x2029 || v == 0x202F || v == 0x205F || v == 0x3000
}

/// The maximal runs of non-whitespace characters of `s`, in order, as
/// `str::split_whitespace` yields them.
pub open spec fn words(s: Seq<char>) -> Seq<Seq<char>>
    decreases s.len(),
{
    if s.len() == 0 {
        Seq::empty()
    } else if is_white_space(s.last()) {
        words(s.drop_last())
    } else if s.len() >= 2 && !is_white_space(s[s.len() - 2]) {
        let w = words(s.drop_last());
        w.update(w.len() - 1, w.last().push(s.last()))
    } else {
        words(s.drop_last()).push(seq![s.last()])
    }
}

/// The strings of `parts` with `sep` between each two, as `join` does.
pub open spec fn join(parts: Seq<Seq<char>>, sep: Seq<char>) -> Seq<char>
    decreases parts.len(),
{
    if parts.len() == 0 {
        Seq::empty()
    } else if parts.len() == 1 {
        parts[0]
    } else {
        join(parts.drop_last(), sep) + sep + parts.last()
    }
}

/// The words of `s` joined by single spaces.
pub open spec fn collapse_white_space(s: Seq<char>) -> Seq<char> {
    join(words(s), seq![' '])
}

proof fn lemma_words_nonempty_after_word(s: Seq<char>)
    requires
        s.len() >= 1,
        !is_white_space(s.last()),
    ensures
        words(s).len() >= 1,
        words(s).last().len() >= 1,
        words(s).last().last() == s.last(),
    decreases s.len(),
{
    if s.len() >= 2 && !is_white_space(s[s.len() - 2]) {
        lemma_words_nonempty_after_word(s.drop_last());
    }
}

/// Collapses runs of whitespace into single spaces and trims both ends.
pub fn collapse_white_space_chars(s: &[char]) -> (r: String)
    ensures
        r@ == collapse_white_space(s@),
{
    let mut out = String::new();
    let mut i: usize = 0;
    let mut in_word = false;
    let mut seen_word = false;
    while i < s.len()
        invariant
            i <= s.len(),
            out@ == collapse_white_space(s@.take(i as int)),
            seen_word == (words(s@.take(i as int)).len() > 0),
            in_word == (i > 0 && !is_white_space(s@[i - 1])),
        decreases s.len() - i,
    {
        let c = s[i];
        let ghost prev = s@.take(i as int);
        let ghost next = s@.take(i + 1);
        assert(next.drop_last() =~= prev);
        assert(next.last() == c);
        if white_space(c) {
            in_word = false;
        } else {
            if in_word {
                proof {
                    lemma_words_nonempty_after_word(prev);
                    lemma_join_extend_last(words(prev), seq![' '], c);
                    assert(prev[prev.len() - 1] == s@[i - 1]);
                }
                out.push(c);
            } else {
                if seen_word {
                    out.push(' ');
                }
                out.push(c);
                proof {
                    lemma_join_push(words(prev), seq![' '], seq![c]);
                    if !seen_word {
                        assert(words(prev).len() == 0);
                        assert(words(next) =~= seq![seq![c]]);
                    }
                }
                seen_word = true;
            }
            in_word = true;
        }
        i = i + 1;
        assert(out@ =~= collapse_white_space(s@.take(i as int)));
    }
    assert(s@.take(s.len() as int) =~= s@);
    out
}

proof fn lemma_join_push(parts: Seq<Seq<char>>, sep: Seq<char>, w: Seq<char>)
    ensures
        join(parts.push(w), sep) == if parts.len() == 0 { w } else { join(parts, sep) + sep + w },
{
    assert(parts.push(w).drop_last() =~= parts);
}

proof fn lemma_join_extend_last(parts: Seq<Seq<char>>, sep: Seq<char>, c: char)
    requires
        parts.len() >= 1,
    ensures
        join(parts.update(parts.len() - 1, parts.last().push(c)), sep) == join(parts, sep).push(c),
{
    let u = parts.update(parts.len() - 1, parts.last().push(c));
    assert(u.drop_last() =~= parts.drop_last());
    if parts.len() == 1 {
        assert(join(u, sep) == u[0]);
    } else {
        assert(join(u, sep) =~= join(parts.drop_last(), sep) + sep + parts.last().push(c));
        assert(join(parts, sep).push(c) =~= join(parts.drop_last(), sep) + sep + parts.last().push(c));
    }
}

/// A zero-padded rendering to one place is the plain rendering.
pub proof fn lemma_digits_nonempty(n: nat, base: nat)
    requires
        2 <= base <= 16,
    ensures
        digits(n, base).len() >= 1,
        zero_pad(digits(n, base), 1) == digits(n, base),
    decreases n,
{
    if n >= base {
        assert(n / base < n) by (nonlinear_arith)
            requires
                n >= base,
                base >= 2,
        ;
        lemma_digits_nonempty(n / base, base);
    }
}

/// Whether `t` is normalized text: its only whitespace are single spaces
/// between two other characters.
pub open spec fn normalized(t: Seq<char>) -> bool {
    forall|i: int|
        0 <= i < t.len() && #[trigger] is_white_space(t[i]) ==> {
            &&& t[i] == ' '
            &&& 0 < i < t.len() - 1
            &&& !is_white_space(t[i - 1])
            &&& !is_white_space(t[i + 1])
        }
}

/// Whether `w` is a word: non-empty, without whitespace.
pub open spec fn is_word(w: Seq<char>) -> bool {
    w.len() > 0 && forall|i: int| 0 <= i < w.len() ==> !is_white_space(#[trigger] w[i])
}

proof fn lemma_words_are_words(s: Seq<char>)
    ensures
        forall|j: int| 0 <= j < words(s).len() ==> is_word(#[trigger] words(s)[j]),
    decreases s.len(),
{
    if s.len() > 0 {
        lemma_words_are_words(s.drop_last());
        let w = words(s.drop_last());
        if is_white_space(s.last()) {
        } else if s.len() >= 2 && !is_white_space(s[s.len() - 2]) {
            lemma_words_nonempty_after_word(s.drop_last());
            let u = w.update(w.len() - 1, w.last().push(s.last()));
            assert forall|j: int| 0 <= j < u.len() implies is_word(#[trigger] u[j]) by {
                if j < w.len() - 1 {
                    assert(u[j] == w[j]);
                } else {
                    assert(is_word(w[w.len() - 1]));
                    assert forall|i: int| 0 <= i < u[j].len() implies !is_white_space(#[trigger] u[j][i]) by {
                        if i < w.last().len() {
                            assert(u[j][i] == w[w.len() - 1][i]);
                        }
                    }
                }
            }
        } else {
            let u = w.push(seq![s.last()]);
            assert forall|j: int| 0 <= j < u.len() implies is_word(#[trigger] u[j]) by {
                if j < w.len() {
                    assert(u[j] == w[j]);
                } else {
                    assert(u[j] =~= seq![s.last()]);
                }
            }
        }
    }
}

proof fn lemma_join_words_normalized(parts: Seq<Seq<char>>)
    requires
        forall|j: int| 0 <= j < parts.len() ==> is_word(#[trigger] parts[j]),
    ensures
        normalized(join(parts, seq![' '])),
        parts.len() > 0 ==> join(parts, seq![' ']).len() > 0 && !is_white_space(
            join(parts, seq![' ']).last(),
        ) && !is_white_space(join(parts, seq![' '])[0]),
    decreases parts.len(),
{
    let t = join(parts, seq![' ']);
    if parts.len() == 1 {
        assert(is_word(parts[0]));
        assert(t == parts[0]);
    } else if parts.len() > 1 {
        let front = parts.drop_last();
        assert forall|j: int| 0 <= j < front.len() implies is_word(#[trigger] front[j]) by {
            assert(front[j] == parts[j]);
        }
        lemma_join_words_normalized(front);
        let p = join(front, seq![' ']);
        let w = parts.last();
        assert(is_word(parts[parts.len() - 1]));
        assert(t == p + seq![' '] + w);
        let n = p.len() as int;
        assert(t[0] == p[0]);
        assert(t.last() == w.last());
        assert forall|i: int| 0 <= i < t.len() && #[trigger] is_white_space(t[i]) implies {
            &&& t[i] == ' '
            &&& 0 < i < t.len() - 1
            &&& !is_white_space(t[i - 1])
            &&& !is_white_space(t[i + 1])
        } by {
            if i < n {
                assert(t[i] == p[i]);
                assert(is_white_space(p[i]));
                assert(t[i - 1] == p[i - 1]);
                assert(t[i + 1] == p[i + 1]);
            } else if i == n {
                assert(t[i - 1] == p.last());
                assert(t[i + 1] == w[0]);
            } else {
                assert(t[i] == w[i - n - 1]);
            }
        }
    }
}

/// Collapsing whitespace leaves normalized text: no whitespace but single
/// spaces between words, none at either end.
pub proof fn lemma_collapsed_is_normalized(s: Seq<char>)
    ensures
        normalized(collapse_white_space(s)),
{
    lemma_words_are_words(s);
    lemma_join_words_normalized(words(s));
}

/// Whether `t` holds a character other than whitespace.
pub open spec fn has_text(t: Seq<char>) -> bool {
    exists|i: int| 0 <= i < t.len() && !is_white_space(#[trigger] t[i])
}

/// Whether `s` holds a character other than whitespace, as
/// `!s.trim().is_empty()` decides.
pub fn str_has_text(s: &str) -> (r: bool)
    ensures
        r == has_text(s@),
{
    let v = chars_of(s);
    let mut i: usize = 0;
    while i < v.len()
        invariant
            i <= v.len(),
            v@ == s@,
            forall|k: int| 0 <= k < i ==> is_white_space(#[trigger] v@[k]),
        decreases v.len() - i,
    {
        if !white_space(v[i]) {
            assert(!is_white_space(s@[i as int]));
            return true;
        }
        i = i + 1;
    }
    false
}

proof fn lemma_words_of_word_prefix(w: Seq<char>, k: int)
    requires
        is_word(w),
        1 <= k <= w.len(),
    ensures
        words(w.take(k)) == seq![w.take(k)],
    decreases k,
{
    let x = w.take(k);
    assert(!is_white_space(w[k - 1]));
    assert(x.last() == w[k - 1]);
    if k == 1 {
        assert(x.drop_last() =~= Seq::<char>::empty());
        assert(words(x.drop_last()) == Seq::<Seq<char>>::empty());
        assert(words(x) == words(x.drop_last()).push(seq![x.last()]));
        assert(x =~= seq![w[0]]);
        assert(words(x) =~= seq![x]);
    } else {
        lemma_words_of_word_prefix(w, k - 1);
        assert(x.drop_last() =~= w.take(k - 1));
        assert(x[x.len() - 2] == w[k - 2]);
        assert(!is_white_space(w[k - 1]));
        assert(!is_white_space(w[k - 2]));
        assert(w.take(k - 1).push(w[k - 1]) =~= x);
        let prev = words(x.drop_last());
        assert(words(x) == prev.update(prev.len() - 1, prev.last().push(x.last())));
        assert(words(x) =~= seq![x]);
    }
}

proof fn lemma_words_append_prefix(s: Seq<char>, w: Seq<char>, k: int)
    requires
        is_word(w),
        1 <= k <= w.len(),
    ensures
        words(s + seq![' '] + w.take(k)) == words(s).push(w.take(k)),
    decreases k,
{
    let x = s + seq![' '] + w.take(k);
    assert(is_white_space(' '));
    if k == 1 {
        assert(x.drop_last() =~= s + seq![' ']);
        assert((s + seq![' ']).drop_last() =~= s);
        assert(x[x.len() - 2] == ' ');
        assert(x.last() == w[0]);
        assert(!is_white_space(w[0]));
        assert(w.take(1) =~= seq![w[0]]);
        assert(words(s + seq![' ']) == words(s));
        assert(words(x) == words(x.drop_last()).push(seq![x.last()]));
    } else {
        lemma_words_append_prefix(s, w, k - 1);
        assert(x.drop_last() =~= s + seq![' '] + w.take(k - 1));
        assert(x[x.len() - 2] == w[k - 2]);
        assert(x.last() == w[k - 1]);
        assert(!is_white_space(w[k - 1]));
        assert(!is_white_space(w[k - 2]));
        assert(w.take(k - 1).push(w[k - 1]) =~= w.take(k));
        let prev = words(s).push(w.take(k - 1));
        assert(words(x.drop_last()) == prev);
        assert(words(x) == prev.update(prev.len() - 1, prev.last().push(x.last())));
        assert(prev.update(prev.len() - 1, prev.last().push(w[k - 1])) =~= words(s).push(w.take(k)));
    }
}

/// Splitting words joined by single spaces gives the words back.
pub proof fn lemma_words_of_join(parts: Seq<Seq<char>>)
    requires
        forall|j: int| 0 <= j < parts.len() ==> is_word(#[trigger] parts[j]),
    ensures
        words(join(parts, seq![' '])) == parts,
    decreases parts.len(),
{
    if parts.len() == 1 {
        assert(is_word(parts[0]));
        lemma_words_of_word_prefix(parts[0], parts[0].len() as int);
        assert(parts[0].take(parts[0].len() as int) =~= parts[0]);
        assert(parts =~= seq![parts[0]]);
    } else if parts.len() > 1 {
        let front = parts.drop_last();
        assert forall|j: int| 0 <= j < front.len() implies is_word(#[trigger] front[j]) by {
            assert(front[j] == parts[j]);
        }
        lemma_words_of_join(front);
        let w = parts.last();
        assert(is_word(parts[parts.len() - 1]));
        lemma_words_append_prefix(join(front, seq![' ']), w, w.len() as int);
        assert(w.take(w.len() as int) =~= w);
        assert(front.push(w) =~= parts);
    } else {
        assert(words(Seq::<char>::empty()) == Seq::<Seq<char>>::empty());
        assert(parts =~= Seq::<Seq<char>>::empty());
    }
}

/// The value of a digit character (`0`-`9`, `a`-`f`).
pub open spec fn digit_value(c: char) -> int {
    if c == '1' { 1 }
    else if c == '2' { 2 }
    else if c == '3' { 3 }
    else if c == '4' { 4 }
    else if c == '5' { 5 }
    else if c == '6' { 6 }
    else if c == '7' { 7 }
    else if c == '8' { 8 }
    else if c == '9' { 9 }
    else if c == 'a' { 10 }
    else if c == 'b' { 11 }
    else if c == 'c' { 12 }
    else if c == 'd' { 13 }
    else if c == 'e' { 14 }
    else if c == 'f' { 15 }
    else { 0 }
}

/// The number that a string of digits names in base `base`, most significant
/// digit first.
pub open spec fn digits_value(s: Seq<char>, base: int) -> int
    decreases s.len(),
{
    if s.len() == 0 {
        0
    } else {
        base * digits_value(s.drop_last(), base) + digit_value(s.last())
    }
}

proof fn lemma_digit_value(d: int)
    requires
        0 <= d < 16,
    ensures
        digit_value(digit_char(d)) == d,
{
}

/// Rendering a number in a base and reading the digits back gives the
/// number.
pub proof fn lemma_digits_value(n: nat, base: nat)
    requires
        2 <= base <= 16,
    ensures
        digits_value(digits(n, base), base as int) == n,
    decreases n,
{
    if n < base {
        lemma_digit_value(n as int);
        assert(digits(n, base) == seq![digit_char(n as int)]);
        assert(seq![digit_char(n as int)].drop_last() =~= Seq::<char>::empty());
        assert(digits_value(Seq::<char>::empty(), base as int) == 0);
        assert(base * 0 == 0);
    } else {
        assert(n / base < n) by (nonlinear_arith)
            requires
                n >= base,
                base >= 2,
        ;
        lemma_digits_value(n / base, base);
        let d = digits(n, base);
        assert(d == digits(n / base, base).push(digit_char((n % base) as int)));
        assert(d.drop_last() =~= digits(n / base, base));
        assert(n == base * (n / base) + n % base && n % base < base) by (nonlinear_arith)
            requires
                base >= 2,
        ;
        lemma_digit_value((n % base) as int);
        assert(digits_value(d, base as int) == base * digits_value(d.drop_last(), base as int)
            + digit_value(d.last()));
        assert(d.last() == digit_char((n % base) as int));
    }
}

proof fn lemma_zeros_value(k: nat, base: int)
    ensures
        digits_value(Seq::new(k, |i: int| '0'), base) == 0,
    decreases k,
{
    if k > 0 {
        lemma_zeros_value((k - 1) as nat, base);
        assert(Seq::new(k, |i: int| '0').drop_last() =~= Seq::new((k - 1) as nat, |i: int| '0'));
    }
}

proof fn lemma_leading_zeros_value(z: Seq<char>, s: Seq<char>, base: int)
    requires
        digits_value(z, base) == 0,
    ensures
        digits_value(z + s, base) == digits_value(s, base),
    decreases s.len(),
{
    if s.len() == 0 {
        assert(z + s =~= z);
    } else {
        lemma_leading_zeros_value(z, s.drop_last(), base);
        assert((z + s).drop_last() =~= z + s.drop_last());
    }
}

/// Zero padding does not change the number that digits name.
pub proof fn lemma_zero_pad_value(s: Seq<char>, width: nat, base: int)
    ensures
        digits_value(zero_pad(s, width), base) == digits_value(s, base),
{
    if s.len() < width {
        lemma_zeros_value((width - s.len()) as nat, base);
        lemma_leading_zeros_value(Seq::new((width - s.len()) as nat, |i: int| '0'), s, base);
    }
}

/// Different numbers have different 32-digit hexadecimal renderings.
pub proof fn lemma_hex32_injective(a: u128, b: u128)
    requires
        hex32(a) == hex32(b),
    ensures
        a == b,
{
    lemma_zero_pad_value(digits(a as nat, 16), 32, 16);
    lemma_zero_pad_value(digits(b as nat, 16), 32, 16);
    lemma_digits_value(a as nat, 16);
    lemma_digits_value(b as nat, 16);
}

} // verus!
