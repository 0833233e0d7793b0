//! Text operations on the strings read from the timetable page and from users:
//! whitespace trimming, joining, splitting, character replacement, decimal
//! `u8` parsing and ordering of strings.

use vstd::prelude::*;

verus! {

/// Unicode `White_Space`: the characters that `char::is_whitespace` accepts.
pub open spec fn is_white_space(c: char) -> bool {
    let n: u32 = c as u32;
    ||| 0x9 <= n <= 0xD
    ||| n == 0x20
    ||| n == 0x85
    ||| n == 0xA0
    ||| n == 0x1680
    ||| 0x2000 <= n <= 0x200A
    ||| n == 0x2028
    ||| n == 0x2029
    ||| n == 0x202F
    ||| n == 0x205F
    ||| n == 0x3000
}

/// `s` without its leading whitespace.
pub open spec fn trim_start_seq(s: Seq<char>) -> Seq<char>
    decreases s.len(),
{
    if s.len() > 0 && is_white_space(s[0]) {
        trim_start_seq(s.drop_first())
    } else {
        s
    }
}

/// `s` without its trailing whitespace.
pub open spec fn trim_end_seq(s: Seq<char>) -> Seq<char>
    decreases s.len(),
{
    if s.len() > 0 && is_white_space(s.last()) {
        trim_end_seq(s.drop_last())
    } else {
        s
    }
}

/// `s` without leading and trailing whitespace.
pub open spec fn trim_seq(s: Seq<char>) -> Seq<char> {
    trim_end_seq(trim_start_seq(s))
}

/// Whether `c` is whitespace.
pub fn is_white_space_char(c: char) -> (r: bool)
    ensures
        r == is_white_space(c),
{
    let n: u32 = c as u32;
    (0x9 <= n && n <= 0xD) || n == 0x20 || n == 0x85 || n == 0xA0 || n == 0x1680 || (0x2000 <= n
        && n <= 0x200A) || n == 0x2028 || n == 0x2029 || n == 0x202F || n == 0x205F || n == 0x3000
}

/// A copy of `s` without leading and trailing whitespace.
pub fn trim(s: &str) -> (r: String)
    ensures
        r@ == trim_seq(s@),
{
    let n: usize = s.unicode_len();
    let mut i: usize = 0;
    assert(s@.subrange(0, n as int) =~= s@);
    while i < n && is_white_space_char(s.get_char(i))
        invariant
            i <= n,
            n == s@.len(),
            trim_start_seq(s@) == trim_start_seq(s@.subrange(i as int, n as int)),
        decreases n - i,
    {
        assert(s@.subrange(i as int, n as int).drop_first() =~= s@.subrange(i + 1, n as int));
        i = i + 1;
    }
    let mut j: usize = n;
    assert(trim_start_seq(s@) == s@.subrange(i as int, n as int));
    while j > i && is_white_space_char(s.get_char(j - 1))
        invariant
            i <= j <= n,
            n == s@.len(),
            trim_seq(s@) == trim_end_seq(s@.subrange(i as int, j as int)),
        decreases j,
    {
        assert(s@.subrange(i as int, j as int).drop_last() =~= s@.subrange(i as int, j - 1));
        j = j - 1;
    }
    let t = s.substring_char(i, j);
    String::from_str(t)
}


/// The parts joined into one sequence with `sep` between neighbours.
pub open spec fn joined(parts: Seq<Seq<char>>, sep: Seq<char>) -> Seq<char>
    decreases parts.len(),
{
    if parts.len() == 0 {
        Seq::empty()
    } else if parts.len() == 1 {
        parts[0]
    } else {
        joined(parts.drop_last(), sep) + sep + parts.last()
    }
}

/// The views of a vector of strings.
pub open spec fn views(v: Seq<String>) -> Seq<Seq<char>> {
    v.map_values(|s: String| s@)
}

/// Whether `s` has a character that is not whitespace.
pub open spec fn is_nonblank(s: Seq<char>) -> bool {
    trim_seq(s).len() > 0
}

/// The parts that are not blank, in their order.
pub open spec fn nonblank_parts(parts: Seq<Seq<char>>) -> Seq<Seq<char>>
    decreases parts.len(),
{
    if parts.len() == 0 {
        Seq::empty()
    } else if is_nonblank(parts.last()) {
        nonblank_parts(parts.drop_last()).push(parts.last())
    } else {
        nonblank_parts(parts.drop_last())
    }
}

/// The strings of `parts` joined with `sep` between neighbours.
pub fn join(parts: &Vec<String>, sep: &str) -> (r: String)
    ensures
        r@ == joined(views(parts@), sep@),
{
    let mut r = String::new();
    let n: usize = parts.len();
    let mut i: usize = 0;
    while i < n
        invariant
            i <= n,
            n == parts@.len(),
            r@ == joined(views(parts@).subrange(0, i as int), sep@),
        decreases n - i,
    {
        let ghost prev = views(parts@).subrange(0, i as int);
        let ghost next = views(parts@).subrange(0, i + 1);
        assert(next.drop_last() =~= prev);
        if i > 0 {
            r.append(sep);
        }
        r.append(parts[i].as_str());
        proof {
            if i == 0 {
                assert(r@ =~= next[0]);
            }
        }
        i = i + 1;
    }
    assert(views(parts@).subrange(0, n as int) =~= views(parts@));
    r
}

/// Whether `s` has a character that is not whitespace.
pub fn is_nonblank_str(s: &str) -> (r: bool)
    ensures
        r == is_nonblank(s@),
{
    let t = trim(s);
    t.as_str().unicode_len() > 0
}

/// The strings of `parts` that are not blank, joined with single spaces.
pub fn join_nonblank(parts: &Vec<String>) -> (r: String)
    ensures
        r@ == joined(nonblank_parts(views(parts@)), " "@),
{
    let mut kept: Vec<String> = Vec::new();
    let n: usize = parts.len();
    let mut i: usize = 0;
    while i < n
        invariant
            i <= n,
            n == parts@.len(),
            views(kept@) == nonblank_parts(views(parts@).subrange(0, i as int)),
        decreases n - i,
    {
        let ghost prev = views(parts@).subrange(0, i as int);
        assert(views(parts@).subrange(0, i + 1).drop_last() =~= prev);
        if is_nonblank_str(parts[i].as_str()) {
            let c = parts[i].clone();
            kept.push(c);
            assert(views(kept@) =~= nonblank_parts(prev).push(parts@[i as int]@));
        }
        i = i + 1;
    }
    assert(views(parts@).subrange(0, n as int) =~= views(parts@));
    join(&kept, " ")
}


/// The pieces of `s` between occurrences of `sep`, in order; empty pieces
/// are kept, and a string without `sep` is one piece.
pub open spec fn split_seq(s: Seq<char>, sep: char) -> Seq<Seq<char>>
    decreases s.len(),
{
    if s.len() == 0 {
        seq![Seq::empty()]
    } else {
        let init = split_seq(s.drop_last(), sep);
        if s.last() == sep {
            init.push(Seq::empty())
        } else {
            init.update(init.len() - 1, init.last().push(s.last()))
        }
    }
}

proof fn lemma_split_nonempty(s: Seq<char>, sep: char)
    ensures
        split_seq(s, sep).len() >= 1,
    decreases s.len(),
{
    if s.len() > 0 {
        lemma_split_nonempty(s.drop_last(), sep);
    }
}

/// The pieces of `s` between single spaces.
pub fn split_spaces(s: &str) -> (r: Vec<String>)
    ensures
        views(r@) == split_seq(s@, ' '),
{
    let n: usize = s.unicode_len();
    let mut pieces: Vec<String> = Vec::new();
    let mut start: usize = 0;
    let mut i: usize = 0;
    assert(views(pieces@) =~= Seq::<Seq<char>>::empty());
    assert(s@.subrange(0, 0) =~= Seq::<char>::empty());
    assert(views(pieces@).push(s@.subrange(0, 0)) =~= split_seq(s@.subrange(0, 0), ' '));
    while i < n
        invariant
            start <= i <= n,
            n == s@.len(),
            split_seq(s@.subrange(0, i as int), ' ') == views(pieces@).push(
                s@.subrange(start as int, i as int),
            ),
        decreases n - i,
    {
        let ghost prefix = s@.subrange(0, i as int);
        assert(s@.subrange(0, i + 1).drop_last() =~= prefix);
        proof {
            lemma_split_nonempty(prefix, ' ');
        }
        let c = s.get_char(i);
        assert(s@.subrange(0, i + 1).last() == c);
        if c == ' ' {
            let ghost old_views = views(pieces@);
            let piece = String::from_str(s.substring_char(start, i));
            pieces.push(piece);
            assert(views(pieces@) =~= old_views.push(s@.subrange(start as int, i as int)));
            assert(s@.subrange(i + 1, i + 1) =~= Seq::<char>::empty());
            start = i + 1;
            assert(split_seq(s@.subrange(0, i + 1), ' ') =~= views(pieces@).push(
                s@.subrange(start as int, i + 1),
            ));
        } else {
            let ghost init = views(pieces@).push(s@.subrange(start as int, i as int));
            assert(init.update(init.len() - 1, init.last().push(c)) =~= views(pieces@).push(
                s@.subrange(start as int, i as int).push(c),
            ));
            assert(s@.subrange(start as int, i as int).push(s@[i as int]) =~= s@.subrange(
                start as int,
                i + 1,
            ));
            assert(split_seq(s@.subrange(0, i + 1), ' ') =~= views(pieces@).push(
                s@.subrange(start as int, i + 1),
            ));
        }
        i = i + 1;
    }
    let last = String::from_str(s.substring_char(start, n));
    pieces.push(last);
    assert(s@.subrange(0, n as int) =~= s@);
    assert(views(pieces@) =~= split_seq(s@, ' '));
    pieces
}

/// `s` with every `from` replaced by `to`.
pub open spec fn replace_seq(s: Seq<char>, from: char, to: char) -> Seq<char> {
    s.map_values(|c: char| if c == from { to } else { c })
}

/// `s` with every comma replaced by a full stop.
pub fn commas_to_stops(s: &str) -> (r: String)
    ensures
        r@ == replace_seq(s@, ',', '.'),
{
    let n: usize = s.unicode_len();
    let mut r = String::new();
    let mut i: usize = 0;
    while i < n
        invariant
            i <= n,
            n == s@.len(),
            r@ == replace_seq(s@.subrange(0, i as int), ',', '.'),
        decreases n - i,
    {
        if s.get_char(i) == ',' {
            r.append(".");
            proof {
                reveal_strlit(".");
            }
        } else {
            r.append(s.substring_char(i, i + 1));
        }
        assert(r@ =~= replace_seq(s@.subrange(0, i + 1), ',', '.'));
        i = i + 1;
    }
    assert(s@.subrange(0, n as int) =~= s@);
    r
}


/// Whether `c` is an ASCII decimal digit.
pub open spec fn is_digit(c: char) -> bool {
    '0' <= c <= '9'
}

/// Whether every character of `d` is a decimal digit.
pub open spec fn all_digits(d: Seq<char>) -> bool {
    forall|k: int| 0 <= k < d.len() ==> is_digit(#[trigger] d[k])
}

/// The value of the decimal digits `d`.
pub open spec fn decimal_value(d: Seq<char>) -> nat
    decreases d.len(),
{
    if d.len() == 0 {
        0
    } else {
        decimal_value(d.drop_last()) * 10 + ((d.last() as u32) - ('0' as u32)) as nat
    }
}

/// The digits that `u8::from_str` reads: `s` after one optional leading `+`.
pub open spec fn unsigned_digits(s: Seq<char>) -> Seq<char> {
    if s.len() > 0 && s[0] == '+' {
        s.drop_first()
    } else {
        s
    }
}

/// What `u8::from_str` gives for `s`: an optional `+` followed by at least
/// one decimal digit whose value fits in a `u8`; anything else is refused.
pub open spec fn parsed_u8(s: Seq<char>) -> Option<u8> {
    let d = unsigned_digits(s);
    if d.len() > 0 && all_digits(d) && decimal_value(d) <= 255 {
        Some(decimal_value(d) as u8)
    } else {
        None
    }
}

proof fn lemma_decimal_value_grows(d: Seq<char>, k: int)
    requires
        0 <= k <= d.len(),
        all_digits(d),
    ensures
        decimal_value(d.subrange(0, k)) <= decimal_value(d),
    decreases d.len() - k,
{
    if k < d.len() {
        lemma_decimal_value_grows(d, k + 1);
        assert(d.subrange(0, k + 1).drop_last() =~= d.subrange(0, k));
        assert(is_digit(d[k]));
    } else {
        assert(d.subrange(0, k) =~= d);
    }
}

/// Parses `s` as `u8::from_str` does.
pub fn parse_u8(s: &str) -> (r: Option<u8>)
    ensures
        r == parsed_u8(s@),
{
    let n: usize = s.unicode_len();
    let mut i: usize = 0;
    if n > 0 && s.get_char(0) == '+' {
        i = 1;
    }
    let ghost d = unsigned_digits(s@);
    assert(d =~= s@.subrange(i as int, n as int));
    if i == n {
        return None;
    }
    let mut value: u32 = 0;
    let mut k: usize = i;
    while k < n
        invariant
            i <= k <= n,
            n == s@.len(),
            d == s@.subrange(i as int, n as int),
            d == unsigned_digits(s@),
            all_digits(d.subrange(0, k - i)),
            value == decimal_value(d.subrange(0, k - i)),
            value <= 255,
        decreases n - k,
    {
        let c = s.get_char(k);
        assert(d.subrange(0, k + 1 - i).drop_last() =~= d.subrange(0, k - i));
        assert(d[k - i] == c);
        if !('0' <= c && c <= '9') {
            assert(!is_digit(d[k - i]));
            return None;
        }
        let digit: u32 = (c as u32) - ('0' as u32);
        value = value * 10 + digit;
        assert(decimal_value(d.subrange(0, k + 1 - i)) == value);
        assert(all_digits(d.subrange(0, k + 1 - i)));
        if value > 255 {
            proof {
                if all_digits(d) {
                    lemma_decimal_value_grows(d, k + 1 - i);
                }
            }
            return None;
        }
        k = k + 1;
    }
    assert(d.subrange(0, n - i) =~= d);
    Some(value as u8)
}

/// Lexicographic order of character sequences, which for strings is the
/// order of their UTF-8 bytes, the order of `String`'s `Ord`.
pub open spec fn chars_le(a: Seq<char>, b: Seq<char>) -> bool
    decreases a.len(),
{
    if a.len() == 0 {
        true
    } else if b.len() == 0 {
        false
    } else if a[0] != b[0] {
        a[0] < b[0]
    } else {
        chars_le(a.drop_first(), b.drop_first())
    }
}

/// Whether `a` comes no later than `b` in lexicographic order.
pub fn str_le(a: &str, b: &str) -> (r: bool)
    ensures
        r == chars_le(a@, b@),
{
    let n: usize = a.unicode_len();
    let m: usize = b.unicode_len();
    let mut i: usize = 0;
    assert(a@.subrange(0, n as int) =~= a@);
    assert(b@.subrange(0, m as int) =~= b@);
    while i < n && i < m
        invariant
            i <= n,
            i <= m,
            n == a@.len(),
            m == b@.len(),
            chars_le(a@, b@) == chars_le(a@.subrange(i as int, n as int), b@.subrange(i as int, m as int)),
        decreases n - i,
    {
        let x = a.get_char(i);
        let y = b.get_char(i);
        assert(a@.subrange(i as int, n as int)[0] == x);
        assert(b@.subrange(i as int, m as int)[0] == y);
        if x != y {
            return x < y;
        }
        assert(a@.subrange(i as int, n as int).drop_first() =~= a@.subrange(i + 1, n as int));
        assert(b@.subrange(i as int, m as int).drop_first() =~= b@.subrange(i + 1, m as int));
        i = i + 1;
    }
    i == n
}

/// Whether `a` and `b` hold the same characters.
pub fn same_text(a: &str, b: &str) -> (r: bool)
    ensures
        r == (a@ == b@),
{
    let n: usize = a.unicode_len();
    let m: usize = b.unicode_len();
    if n != m {
        return false;
    }
    let mut i: usize = 0;
    while i < n
        invariant
            i <= n,
            n == a@.len(),
            m == b@.len(),
            n == m,
            a@.subrange(0, i as int) == b@.subrange(0, i as int),
        decreases n - i,
    {
        if a.get_char(i) != b.get_char(i) {
            return false;
        }
        assert(a@.subrange(0, i + 1) =~= a@.subrange(0, i as int).push(a@[i as int]));
        assert(b@.subrange(0, i + 1) =~= b@.subrange(0, i as int).push(b@[i as int]));
        i = i + 1;
    }
    assert(a@.subrange(0, n as int) =~= a@);
    assert(b@.subrange(0, n as int) =~= b@);
    true
}


/// Any two sequences are ordered one way or the other.
pub proof fn lemma_chars_le_total(a: Seq<char>, b: Seq<char>)
    ensures
        chars_le(a, b) || chars_le(b, a),
    decreases a.len(),
{
    if a.len() > 0 && b.len() > 0 && a[0] == b[0] {
        lemma_chars_le_total(a.drop_first(), b.drop_first());
    }
}

/// The order is transitive.
pub proof fn lemma_chars_le_transitive(a: Seq<char>, b: Seq<char>, c: Seq<char>)
    requires
        chars_le(a, b),
        chars_le(b, c),
    ensures
        chars_le(a, c),
    decreases a.len(),
{
    if a.len() > 0 && b.len() > 0 && c.len() > 0 && a[0] == b[0] && b[0] == c[0] {
        lemma_chars_le_transitive(a.drop_first(), b.drop_first(), c.drop_first());
    }
}


proof fn lemma_trim_start_shape(s: Seq<char>)
    ensures
        trim_start_seq(s).len() == 0 || !is_white_space(trim_start_seq(s)[0]),
    decreases s.len(),
{
    if s.len() > 0 && is_white_space(s[0]) {
        lemma_trim_start_shape(s.drop_first());
    }
}

proof fn lemma_trim_end_shape(s: Seq<char>)
    ensures
        trim_end_seq(s).len() <= s.len(),
        trim_end_seq(s) == s.subrange(0, trim_end_seq(s).len() as int),
        trim_end_seq(s).len() == 0 || !is_white_space(trim_end_seq(s).last()),
    decreases s.len(),
{
    if s.len() > 0 && is_white_space(s.last()) {
        lemma_trim_end_shape(s.drop_last());
        assert(s.drop_last().subrange(0, trim_end_seq(s).len() as int) =~= s.subrange(
            0,
            trim_end_seq(s).len() as int,
        ));
    } else {
        assert(s.subrange(0, s.len() as int) =~= s);
    }
}

/// Trimming a trimmed text changes nothing: a trimmed text neither starts
/// nor ends with whitespace.
pub proof fn lemma_trim_idempotent(s: Seq<char>)
    ensures
        trim_seq(trim_seq(s)) == trim_seq(s),
        trim_seq(s).len() == 0 || (!is_white_space(trim_seq(s)[0]) && !is_white_space(
            trim_seq(s).last(),
        )),
{
    let u = trim_start_seq(s);
    let t = trim_end_seq(u);
    lemma_trim_start_shape(s);
    lemma_trim_end_shape(u);
    if t.len() > 0 {
        assert(t[0] == u[0]);
    }
    assert(trim_start_seq(t) == t);
    assert(trim_end_seq(t) == t);
}

/// Splitting at a character and joining the pieces with that character
/// gives back the text.
pub proof fn lemma_split_then_join(s: Seq<char>, sep: char)
    ensures
        joined(split_seq(s, sep), seq![sep]) == s,
    decreases s.len(),
{
    if s.len() > 0 {
        let init = s.drop_last();
        let pieces = split_seq(init, sep);
        lemma_split_then_join(init, sep);
        lemma_split_nonempty(init, sep);
        if s.last() == sep {
            let p2 = pieces.push(Seq::<char>::empty());
            assert(p2.drop_last() =~= pieces);
            assert(s =~= init + seq![sep] + Seq::<char>::empty());
        } else {
            let p2 = pieces.update(pieces.len() - 1, pieces.last().push(s.last()));
            if pieces.len() == 1 {
                assert(s =~= pieces[0].push(s.last()));
            } else {
                assert(p2.drop_last() =~= pieces.drop_last());
                assert(joined(pieces, seq![sep]) == joined(pieces.drop_last(), seq![sep]) + seq![sep]
                    + pieces.last());
                let a = joined(pieces.drop_last(), seq![sep]);
                assert(s =~= init.push(s.last()));
                assert((a + seq![sep] + pieces.last()).push(s.last()) =~= a + seq![sep]
                    + pieces.last().push(s.last()));
            }
        }
    }
}


/// The decimal digit character of `d`, for `d < 10`.
pub open spec fn digit_char(d: nat) -> char {
    if d == 0 {
        '0'
    } else if d == 1 {
        '1'
    } else if d == 2 {
        '2'
    } else if d == 3 {
        '3'
    } else if d == 4 {
        '4'
    } else if d == 5 {
        '5'
    } else if d == 6 {
        '6'
    } else if d == 7 {
        '7'
    } else if d == 8 {
        '8'
    } else {
        '9'
    }
}

/// The decimal rendering of `n`, without leading zeros.
pub open spec fn decimal_text(n: nat) -> Seq<char>
    decreases n,
{
    if n < 10 {
        seq![digit_char(n)]
    } else {
        decimal_text(n / 10).push(digit_char(n % 10))
    }
}

proof fn lemma_digit_char(d: nat)
    requires
        d < 10,
    ensures
        is_digit(digit_char(d)),
        (digit_char(d) as u32) - ('0' as u32) == d,
        digit_char(d) != '+',
{
}

proof fn lemma_decimal_text_digits(n: nat)
    ensures
        decimal_text(n).len() > 0,
        all_digits(decimal_text(n)),
        decimal_value(decimal_text(n)) == n,
        decimal_text(n)[0] != '+',
    decreases n,
{
    if n < 10 {
        lemma_digit_char(n);
        let t = decimal_text(n);
        assert(t.drop_last() =~= Seq::<char>::empty());
        assert(decimal_value(t.drop_last()) == 0);
    } else {
        lemma_decimal_text_digits(n / 10);
        lemma_digit_char(n % 10);
        let t = decimal_text(n);
        assert(t.drop_last() =~= decimal_text(n / 10));
        assert(t.last() == digit_char(n % 10));
        assert((n / 10) * 10 + n % 10 == n) by (nonlinear_arith);
        assert(t[0] == decimal_text(n / 10)[0]);
        assert forall|k: int| 0 <= k < t.len() implies is_digit(#[trigger] t[k]) by {
            if k < t.len() - 1 {
                assert(t[k] == decimal_text(n / 10)[k]);
            }
        }
    }
}

/// Every `u8` reads back from its decimal rendering, with or without a
/// leading `+`, and with leading zeros.
pub proof fn lemma_parse_u8_reads_decimal(n: u8, zeros: nat)
    ensures
        parsed_u8(decimal_text(n as nat)) == Some(n),
        parsed_u8(seq!['+'] + decimal_text(n as nat)) == Some(n),
        parsed_u8(Seq::new(zeros, |i: int| '0') + decimal_text(n as nat)) == Some(n),
{
    lemma_decimal_text_digits(n as nat);
    let t = decimal_text(n as nat);
    assert((seq!['+'] + t).drop_first() =~= t);
    lemma_leading_zeros(zeros, t);
}

proof fn lemma_leading_zeros(zeros: nat, t: Seq<char>)
    requires
        t.len() > 0,
        all_digits(t),
        t[0] != '+',
    ensures
        all_digits(Seq::new(zeros, |i: int| '0') + t),
        decimal_value(Seq::new(zeros, |i: int| '0') + t) == decimal_value(t),
        (Seq::new(zeros, |i: int| '0') + t)[0] != '+',
    decreases t.len(),
{
    let z = Seq::new(zeros, |i: int| '0');
    let s = z + t;
    assert forall|k: int| 0 <= k < s.len() implies is_digit(#[trigger] s[k]) by {
        if k >= zeros {
            assert(s[k] == t[k - zeros]);
        }
    }
    if t.len() == 1 {
        lemma_zeros_value(zeros);
        assert(s.drop_last() =~= z);
        assert(s.last() == t.last());
        assert(t.drop_last() =~= Seq::<char>::empty());
        assert(decimal_value(t.drop_last()) == 0);
        assert(decimal_value(s) == decimal_value(z) * 10 + ((s.last() as u32) - ('0' as u32)) as nat);
    } else {
        let t0 = t.drop_last();
        assert forall|k: int| 0 <= k < t0.len() implies is_digit(#[trigger] t0[k]) by {
            assert(t0[k] == t[k]);
        }
        lemma_leading_zeros(zeros, t0);
        assert(s.drop_last() =~= z + t0);
        assert(s.last() == t.last());
    }
}

proof fn lemma_zeros_value(zeros: nat)
    ensures
        decimal_value(Seq::new(zeros, |i: int| '0')) == 0,
    decreases zeros,
{
    if zeros > 0 {
        let z = Seq::new(zeros, |i: int| '0');
        lemma_zeros_value((zeros - 1) as nat);
        assert(z.drop_last() =~= Seq::new((zeros - 1) as nat, |i: int| '0'));
    }
}

/// A text with a character that is not a decimal digit, after an optional
/// leading `+`, is not a `u8`.
pub proof fn lemma_parse_u8_refuses_non_digits(s: Seq<char>, k: int)
    requires
        0 <= k < unsigned_digits(s).len(),
        !('0' <= unsigned_digits(s)[k] <= '9'),
    ensures
        parsed_u8(s) is None,
{
}

/// A common prefix of `a` and `b` of length `i` after which `a` has the
/// smaller character.
pub open spec fn differs_first_below(a: Seq<char>, b: Seq<char>, i: int) -> bool {
    0 <= i < a.len() && i < b.len() && a.subrange(0, i) == b.subrange(0, i) && a[i] < b[i]
}

/// The order of sequences is the code-point order of their first differing
/// characters, and a prefix comes first.
pub proof fn lemma_chars_le_is_lexicographic(a: Seq<char>, b: Seq<char>)
    ensures
        chars_le(a, b) <==> (a.len() <= b.len() && a == b.subrange(0, a.len() as int)) || exists|
            i: int,
        |
            #[trigger] differs_first_below(a, b, i),
    decreases a.len(),
{
    if a.len() == 0 {
        assert(a =~= b.subrange(0, 0));
    } else if b.len() == 0 {
    } else if a[0] != b[0] {
        if a[0] < b[0] {
            assert(a.subrange(0, 0) =~= b.subrange(0, 0));
            assert(differs_first_below(a, b, 0));
        }
        if exists|i: int| #[trigger] differs_first_below(a, b, i) {
            let i = choose|i: int| #[trigger] differs_first_below(a, b, i);
            if i > 0 {
                assert(a.subrange(0, i)[0] == b.subrange(0, i)[0]);
            }
        }
        if a.len() <= b.len() && a == b.subrange(0, a.len() as int) {
            assert(a[0] == b.subrange(0, a.len() as int)[0]);
        }
    } else {
        let a1 = a.drop_first();
        let b1 = b.drop_first();
        lemma_chars_le_is_lexicographic(a1, b1);
        assert(a =~= seq![a[0]] + a1);
        assert(b =~= seq![b[0]] + b1);
        if a1.len() <= b1.len() && a1 == b1.subrange(0, a1.len() as int) {
            assert(b.subrange(0, a.len() as int) =~= seq![b[0]] + b1.subrange(0, a1.len() as int));
        }
        if a.len() <= b.len() && a == b.subrange(0, a.len() as int) {
            assert(a1 =~= b1.subrange(0, a1.len() as int));
        }
        if exists|i: int| #[trigger] differs_first_below(a1, b1, i) {
            let i = choose|i: int| #[trigger] differs_first_below(a1, b1, i);
            assert(a.subrange(0, i + 1) =~= seq![a[0]] + a1.subrange(0, i));
            assert(b.subrange(0, i + 1) =~= seq![b[0]] + b1.subrange(0, i));
            assert(differs_first_below(a, b, i + 1));
        }
        if exists|i: int| #[trigger] differs_first_below(a, b, i) {
            let i = choose|i: int| #[trigger] differs_first_below(a, b, i);
            assert(i > 0);
            assert(a1.subrange(0, i - 1) =~= a.subrange(0, i).drop_first());
            assert(b1.subrange(0, i - 1) =~= b.subrange(0, i).drop_first());
            assert(differs_first_below(a1, b1, i - 1));
        }
    }
}

/// Two single characters are ordered as their code points.
pub proof fn lemma_chars_le_single(x: char, y: char)
    ensures
        chars_le(seq![x], seq![y]) <==> x <= y,
{
    lemma_chars_le_is_lexicographic(seq![x], seq![y]);
    if x == y {
        assert(seq![x] =~= seq![y].subrange(0, 1));
    }
    if x < y {
        assert(seq![x].subrange(0, 0) =~= seq![y].subrange(0, 0));
        assert(differs_first_below(seq![x], seq![y], 0));
    }
    if seq![x] == seq![y].subrange(0, 1) {
        assert(seq![x][0] == seq![y].subrange(0, 1)[0]);
    }
}

} // verus!
