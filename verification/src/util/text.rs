//! Character-level text handling shared by the configuration, lease-file and
//! address parsers: whitespace, trimming, splitting, unsigned number parsing
//! and decimal / hexadecimal rendering.
//!
//! Text is handled as sequences of `char`; the spec functions here say what
//! each operation means on `Seq<char>` and the executable functions are proved
//! against them.
use vstd::prelude::*;

verus! {

/// Unicode `White_Space`, the set that `char::is_whitespace` (and therefore
/// `str::trim` and `str::split_whitespace`) uses.
pub open spec fn is_ws(c: char) -> bool {
    let u = c as u32;
    (0x9 <= u <= 0xd) || u == 0x20 || u == 0x85 || u == 0xa0 || u == 0x1680 || (0x2000 <= u
        <= 0x200a) || u == 0x2028 || u == 0x2029 || u == 0x202f || u == 0x205f || u == 0x3000
}

/// `s` with leading whitespace removed.
pub open spec fn trim_start(s: Seq<char>) -> Seq<char>
    decreases s.len(),
{
    if s.len() > 0 && is_ws(s[0]) {
        trim_start(s.drop_first())
    } else {
        s
    }
}

/// `s` with trailing whitespace removed.
pub open spec fn trim_end(s: Seq<char>) -> Seq<char>
    decreases s.len(),
{
    if s.len() > 0 && is_ws(s.last()) {
        trim_end(s.drop_last())
    } else {
        s
    }
}

/// `s` with leading and trailing whitespace removed (`str::trim`).
pub open spec fn trim(s: Seq<char>) -> Seq<char> {
    trim_end(trim_start(s))
}

/// The pieces of `s` between occurrences of `sep` (`str::split` on a char):
/// always at least one piece; `k` separators give `k + 1` pieces.
pub open spec fn split(s: Seq<char>, sep: char) -> Seq<Seq<char>>
    decreases s.len(),
{
    if s.len() == 0 {
        seq![Seq::<char>::empty()]
    } else {
        let r = split(s.drop_last(), sep);
        if s.last() == sep {
            r.push(Seq::<char>::empty())
        } else {
            r.update(r.len() - 1, r.last().push(s.last()))
        }
    }
}

/// The lines of `s` (`str::lines`): the pieces between `'\n'`, without the
/// empty piece after a final newline. A trailing `'\r'` stays on its line;
/// every caller trims lines, which removes it.
pub open spec fn lines(s: Seq<char>) -> Seq<Seq<char>> {
    let p = split(s, '\n');
    if p.last().len() == 0 {
        p.drop_last()
    } else {
        p
    }
}

/// `str::split_once` on a char: the text before and after the first `sep`.
pub open spec fn split_once(s: Seq<char>, sep: char) -> Option<(Seq<char>, Seq<char>)>
    decreases s.len(),
{
    if s.len() == 0 {
        None
    } else if s[0] == sep {
        Some((Seq::<char>::empty(), s.drop_first()))
    } else {
        match split_once(s.drop_first(), sep) {
            Some((a, b)) => Some((seq![s[0]] + a, b)),
            None => None,
        }
    }
}

/// The maximal runs of non-whitespace characters of `s`
/// (`str::split_whitespace`).
pub open spec fn words(s: Seq<char>) -> Seq<Seq<char>>
    decreases s.len(),
{
    if s.len() == 0 {
        Seq::<Seq<char>>::empty()
    } else {
        let r = words(s.drop_last());
        let c = s.last();
        if is_ws(c) {
            r
        } else if s.len() >= 2 && !is_ws(s[s.len() - 2]) {
            r.update(r.len() - 1, r.last().push(c))
        } else {
            r.push(seq![c])
        }
    }
}

/// Value of `c` as a digit in base `radix` (10 or 16, either case).
pub open spec fn digit_value(c: char, radix: nat) -> Option<nat> {
    let u = c as u32;
    if 0x30 <= u <= 0x39 {
        Some((u - 0x30) as nat)
    } else if radix == 16 && 0x61 <= u <= 0x66 {
        Some((u - 0x61 + 10) as nat)
    } else if radix == 16 && 0x41 <= u <= 0x46 {
        Some((u - 0x41 + 10) as nat)
    } else {
        None
    }
}

/// Every character of `s` is a digit in base `radix`.
pub open spec fn all_digits(s: Seq<char>, radix: nat) -> bool {
    forall|i: int| 0 <= i < s.len() ==> (#[trigger] digit_value(s[i], radix)) is Some
}

/// The number written by the digits `s` in base `radix`.
pub open spec fn digits_value(s: Seq<char>, radix: nat) -> nat
    decreases s.len(),
{
    if s.len() == 0 {
        0
    } else {
        digits_value(s.drop_last(), radix) * radix + digit_value(s.last(), radix).unwrap_or(0)
    }
}

/// Unsigned integer parsing as `from_str_radix` does it for a type whose
/// largest value is `max`: an optional `'+'`, then at least one digit, and a
/// value that fits.
pub open spec fn parse_uint(s: Seq<char>, radix: nat, max: nat) -> Option<nat> {
    let body = uint_digits(s);
    if body.len() > 0 && all_digits(body, radix) && digits_value(body, radix) <= max {
        Some(digits_value(body, radix))
    } else {
        None
    }
}

/// The digits of an unsigned number: `s` without one leading `'+'`.
pub open spec fn uint_digits(s: Seq<char>) -> Seq<char> {
    if s.len() > 0 && s[0] == '+' {
        s.drop_first()
    } else {
        s
    }
}

/// The decimal digit character for `d < 10`.
pub open spec fn dec_char(d: nat) -> char {
    ((d + 48) as u8) as char
}

/// The lowercase hexadecimal digit character for `d < 16`.
pub open spec fn hex_char(d: nat) -> char {
    if d < 10 {
        ((d + 48) as u8) as char
    } else {
        ((d + 87) as u8) as char
    }
}

/// Decimal rendering of `n`, without leading zeros.
pub open spec fn dec(n: nat) -> Seq<char>
    decreases n,
{
    if n < 10 {
        seq![dec_char(n)]
    } else {
        dec(n / 10).push(dec_char(n % 10))
    }
}

/// `n` in decimal, left-padded with zeros to at least `width` characters.
pub open spec fn dec_padded(n: nat, width: nat) -> Seq<char> {
    let d = dec(n);
    if d.len() >= width {
        d
    } else {
        Seq::new((width - d.len()) as nat, |i: int| '0') + d
    }
}

/// Two lowercase hexadecimal digits for a byte.
pub open spec fn hex2(b: u8) -> Seq<char> {
    seq![hex_char((b / 16) as nat), hex_char((b % 16) as nat)]
}

/// `s` followed by spaces up to at least `width` characters (`{:<width}`).
pub open spec fn pad_right(s: Seq<char>, width: nat) -> Seq<char> {
    if s.len() >= width {
        s
    } else {
        s + Seq::new((width - s.len()) as nat, |i: int| ' ')
    }
}

/// `items` joined with `sep` between consecutive items.
pub open spec fn join(items: Seq<Seq<char>>, sep: Seq<char>) -> Seq<char>
    decreases items.len(),
{
    if items.len() == 0 {
        Seq::<char>::empty()
    } else if items.len() == 1 {
        items[0]
    } else {
        join(items.drop_last(), sep) + sep + items.last()
    }
}

/// Deep view of a vector of character vectors.
pub open spec fn seqs(v: Seq<Vec<char>>) -> Seq<Seq<char>> {
    v.map_values(|x: Vec<char>| x@)
}

// ---------------------------------------------------------------------------
// Executable text operations
// ---------------------------------------------------------------------------

/// The characters of `s`, in order.
pub fn chars_of(s: &str) -> (v: Vec<char>)
    ensures
        v@ == s@,
{
    let mut v: Vec<char> = Vec::new();
    for c in it: s.chars()
        invariant
            v@ == it.seq().take(it.index() as int),
            it.seq() == s@,
    {
        v.push(c);
    }
    v
}

#[verifier::external_body]
fn string_push(s: &mut String, c: char)
    ensures
        final(s)@ == old(s)@.push(c),
{
    s.push(c);
}

/// A `String` holding exactly the characters `v`.
pub fn string_of(v: &[char]) -> (s: String)
    ensures
        s@ == v@,
{
    let mut s = String::new();
    let mut i: usize = 0;
    while i < v.len()
        invariant
            i <= v.len(),
            s@ == v@.take(i as int),
        decreases v.len() - i,
    {
        string_push(&mut s, v[i]);
        i += 1;
        assert(s@ == v@.take(i as int));
    }
    assert(v@.take(v.len() as int) == v@);
    s
}

/// Append the characters of `s` to `out`.
pub fn push_str(out: &mut Vec<char>, s: &str)
    ensures
        final(out)@ == old(out)@ + s@,
{
    let ghost start = out@;
    for c in it: s.chars()
        invariant
            out@ == start + it.seq().take(it.index() as int),
            it.seq() == s@,
    {
        out.push(c);
        assert(start + it.seq().take(it.index() + 1) == (start + it.seq().take(
            it.index() as int,
        )).push(c));
    }
    assert(s@.take(s@.len() as int) == s@);
}

/// Append the characters of `s` to `out`.
pub fn push_chars(out: &mut Vec<char>, s: &[char])
    ensures
        final(out)@ == old(out)@ + s@,
{
    let ghost start = out@;
    let mut i: usize = 0;
    while i < s.len()
        invariant
            i <= s.len(),
            out@ == start + s@.take(i as int),
        decreases s.len() - i,
    {
        out.push(s[i]);
        i += 1;
        assert(out@ == start + s@.take(i as int));
    }
    assert(s@.take(s.len() as int) == s@);
}

/// A copy of `s[lo..hi]`.
pub fn slice_chars(s: &[char], lo: usize, hi: usize) -> (r: Vec<char>)
    requires
        lo <= hi <= s.len(),
    ensures
        r@ == s@.subrange(lo as int, hi as int),
{
    let mut r: Vec<char> = Vec::new();
    let mut i = lo;
    while i < hi
        invariant
            lo <= i <= hi <= s.len(),
            r@ == s@.subrange(lo as int, i as int),
        decreases hi - i,
    {
        r.push(s[i]);
        i += 1;
        assert(r@ == s@.subrange(lo as int, i as int));
    }
    r
}

/// Is `c` whitespace?
pub fn is_whitespace(c: char) -> (b: bool)
    ensures
        b == is_ws(c),
{
    let u = c as u32;
    (0x9 <= u && u <= 0xd) || u == 0x20 || u == 0x85 || u == 0xa0 || u == 0x1680 || (0x2000 <= u
        && u <= 0x200a) || u == 0x2028 || u == 0x2029 || u == 0x202f || u == 0x205f || u == 0x3000
}

proof fn lemma_trim_start_skip(s: Seq<char>, i: int)
    requires
        0 <= i < s.len(),
        is_ws(s[i]),
    ensures
        trim_start(s.subrange(i, s.len() as int)) == trim_start(s.subrange(i + 1, s.len() as int)),
{
    let t = s.subrange(i, s.len() as int);
    assert(t.drop_first() =~= s.subrange(i + 1, s.len() as int));
}

proof fn lemma_trim_end_skip(s: Seq<char>, j: int)
    requires
        0 < j <= s.len(),
        is_ws(s[j - 1]),
    ensures
        trim_end(s.subrange(0, j)) == trim_end(s.subrange(0, j - 1)),
{
    let t = s.subrange(0, j);
    assert(t.drop_last() =~= s.subrange(0, j - 1));
}

/// `s` without leading and trailing whitespace.
pub fn trim_chars(s: &[char]) -> (r: Vec<char>)
    ensures
        r@ == trim(s@),
{
    let n = s.len();
    let mut i: usize = 0;
    assert(s@.subrange(0, n as int) =~= s@);
    while i < n && is_whitespace(s[i])
        invariant
            i <= n == s.len(),
            trim_start(s@) == trim_start(s@.subrange(i as int, n as int)),
        decreases n - i,
    {
        proof {
            lemma_trim_start_skip(s@, i as int);
        }
        i += 1;
    }
    let ghost ts = s@.subrange(i as int, n as int);
    assert(trim_start(ts) == ts);
    let mut j: usize = n;
    assert(ts.subrange(0, (n - i) as int) =~= ts);
    while j > i && is_whitespace(s[j - 1])
        invariant
            i <= j <= n == s.len(),
            ts == s@.subrange(i as int, n as int),
            trim_end(ts) == trim_end(ts.subrange(0, (j - i) as int)),
        decreases j,
    {
        proof {
            lemma_trim_end_skip(ts, (j - i) as int);
            assert(ts.subrange(0, (j - i) as int - 1) =~= ts.subrange(0, (j - 1 - i) as int));
        }
        j -= 1;
    }
    let r = slice_chars(s, i, j);
    assert(r@ =~= ts.subrange(0, (j - i) as int));
    r
}


/// The pieces of `s` between occurrences of `sep`.
pub fn split_chars(s: &[char], sep: char) -> (r: Vec<Vec<char>>)
    ensures
        seqs(r@) == split(s@, sep),
{
    let mut r: Vec<Vec<char>> = Vec::new();
    r.push(Vec::new());
    assert(s@.take(0) =~= Seq::<char>::empty());
    assert(seqs(r@) =~= split(s@.take(0), sep));
    let mut i: usize = 0;
    while i < s.len()
        invariant
            i <= s.len(),
            r@.len() >= 1,
            seqs(r@) == split(s@.take(i as int), sep),
        decreases s.len() - i,
    {
        let ghost prev = seqs(r@);
        let c = s[i];
        assert(s@.take(i + 1).drop_last() =~= s@.take(i as int));
        assert(s@.take(i + 1).last() == c);
        if c == sep {
            r.push(Vec::new());
            assert(seqs(r@) =~= prev.push(Seq::<char>::empty()));
        } else {
            let mut last = r.pop().unwrap();
            last.push(c);
            r.push(last);
            assert(seqs(r@) =~= prev.update(prev.len() - 1, prev.last().push(c)));
        }
        i += 1;
    }
    assert(s@.take(s.len() as int) =~= s@);
    r
}

/// The lines of `s` (see [`lines`]).
pub fn lines_of(s: &[char]) -> (r: Vec<Vec<char>>)
    ensures
        seqs(r@) == lines(s@),
{
    let mut r = split_chars(s, '\n');
    let ghost p = seqs(r@);
    assert(p.len() >= 1) by {
        lemma_split_nonempty(s@, '\n');
    }
    if r[r.len() - 1].len() == 0 {
        r.pop();
        assert(seqs(r@) =~= p.drop_last());
    }
    r
}

/// `split` always yields at least one piece.
pub proof fn lemma_split_nonempty(s: Seq<char>, sep: char)
    ensures
        split(s, sep).len() >= 1,
    decreases s.len(),
{
    if s.len() > 0 {
        lemma_split_nonempty(s.drop_last(), sep);
    }
}

proof fn lemma_split_once_at(s: Seq<char>, sep: char, i: int)
    requires
        0 <= i <= s.len(),
        forall|k: int| 0 <= k < i ==> s[k] != sep,
    ensures
        i < s.len() && s[i] == sep ==> split_once(s, sep) == Some(
            (s.take(i), s.skip(i + 1)),
        ),
        i == s.len() ==> split_once(s, sep) is None,
    decreases i,
{
    if i > 0 {
        let t = s.drop_first();
        lemma_split_once_at(t, sep, i - 1);
        if i < s.len() && s[i] == sep {
            assert(seq![s[0]] + t.take(i - 1) =~= s.take(i));
            assert(t.skip(i) =~= s.skip(i + 1));
        }
    } else if s.len() > 0 && s[0] == sep {
        assert(s.take(0) =~= Seq::<char>::empty());
        assert(s.skip(1) =~= s.drop_first());
    }
}

/// The text before and after the first `sep`, if there is one.
pub fn split_once_chars(s: &[char], sep: char) -> (r: Option<(Vec<char>, Vec<char>)>)
    ensures
        match r {
            Some((a, b)) => split_once(s@, sep) == Some((a@, b@)),
            None => split_once(s@, sep) is None,
        },
{
    let mut i: usize = 0;
    while i < s.len() && s[i] != sep
        invariant
            i <= s.len(),
            forall|k: int| 0 <= k < i ==> s@[k] != sep,
        decreases s.len() - i,
    {
        i += 1;
    }
    proof {
        lemma_split_once_at(s@, sep, i as int);
    }
    if i == s.len() {
        None
    } else {
        let a = slice_chars(s, 0, i);
        let b = slice_chars(s, i + 1, s.len());
        assert(a@ =~= s@.take(i as int));
        assert(b@ =~= s@.skip(i + 1));
        Some((a, b))
    }
}

/// The whitespace-separated words of `s`.
pub fn words_of(s: &[char]) -> (r: Vec<Vec<char>>)
    ensures
        seqs(r@) == words(s@),
{
    let mut r: Vec<Vec<char>> = Vec::new();
    assert(s@.take(0) =~= Seq::<char>::empty());
    assert(seqs(r@) =~= words(s@.take(0)));
    let mut i: usize = 0;
    while i < s.len()
        invariant
            i <= s.len(),
            seqs(r@) == words(s@.take(i as int)),
            i > 0 && !is_ws(s@[i - 1]) ==> r@.len() >= 1,
        decreases s.len() - i,
    {
        let ghost prev = seqs(r@);
        let c = s[i];
        let ghost t = s@.take(i + 1);
        assert(t.drop_last() =~= s@.take(i as int));
        assert(t.last() == c);
        if is_whitespace(c) {
        } else if i >= 1 && !is_whitespace(s[i - 1]) {
            assert(t[t.len() - 2] == s@[i - 1]);
            let mut last = r.pop().unwrap();
            last.push(c);
            r.push(last);
            assert(seqs(r@) =~= prev.update(prev.len() - 1, prev.last().push(c)));
        } else {
            if i >= 1 {
                assert(t[t.len() - 2] == s@[i - 1]);
            }
            let mut w: Vec<char> = Vec::new();
            w.push(c);
            r.push(w);
            assert(seqs(r@) =~= prev.push(seq![c]));
        }
        i += 1;
    }
    assert(s@.take(s.len() as int) =~= s@);
    r
}

/// The value of `c` as a digit in base `radix`.
pub fn digit(c: char, radix: u64) -> (r: Option<u64>)
    requires
        radix == 10 || radix == 16,
    ensures
        match r {
            Some(d) => digit_value(c, radix as nat) == Some(d as nat) && d < radix,
            None => digit_value(c, radix as nat) is None,
        },
{
    let u = c as u32;
    if 0x30 <= u && u <= 0x39 {
        Some((u - 0x30) as u64)
    } else if radix == 16 && 0x61 <= u && u <= 0x66 {
        Some((u - 0x61 + 10) as u64)
    } else if radix == 16 && 0x41 <= u && u <= 0x46 {
        Some((u - 0x41 + 10) as u64)
    } else {
        None
    }
}

/// The value of a prefix of a digit string never exceeds the value of a
/// longer prefix.
pub proof fn lemma_digits_value_monotone(s: Seq<char>, radix: nat, j: int, k: int)
    requires
        radix >= 1,
        0 <= j <= k <= s.len(),
    ensures
        digits_value(s.take(j), radix) <= digits_value(s.take(k), radix),
    decreases k - j,
{
    if j < k {
        lemma_digits_value_monotone(s, radix, j, k - 1);
        let t = s.take(k);
        assert(t.drop_last() =~= s.take(k - 1));
        let v = digits_value(s.take(k - 1), radix);
        assert(v * radix >= v) by (nonlinear_arith)
            requires
                radix >= 1,
        ;
    }
}

proof fn lemma_uint_step(v: int, d: int, radix: int, max: int)
    requires
        radix >= 1,
        v >= 0,
        d >= 0,
    ensures
        d > max ==> v * radix + d > max,
        d <= max && v > (max - d) / radix ==> v * radix + d > max,
        d <= max && v <= (max - d) / radix ==> v * radix + d <= max,
{
    assert(d > max ==> v * radix + d > max) by (nonlinear_arith)
        requires
            radix >= 1,
            v >= 0,
    ;
    assert(d <= max && v > (max - d) / radix ==> v * radix + d > max) by (nonlinear_arith)
        requires
            radix >= 1,
    ;
    assert(d <= max && v <= (max - d) / radix ==> v * radix + d <= max) by (nonlinear_arith)
        requires
            radix >= 1,
    ;
}

proof fn lemma_uint_too_big(body: Seq<char>, radix: nat, max: nat, k: int)
    requires
        radix >= 1,
        0 <= k < body.len(),
        digits_value(body.take(k + 1), radix) > max,
    ensures
        digits_value(body, radix) > max,
{
    lemma_digits_value_monotone(body, radix, k + 1, body.len() as int);
    assert(body.take(body.len() as int) =~= body);
}

/// Parse an unsigned number in base `radix` that must not exceed `max`.
pub fn parse_uint_chars(s: &[char], radix: u64, max: u64) -> (r: Option<u64>)
    requires
        radix == 10 || radix == 16,
    ensures
        match r {
            Some(v) => parse_uint(s@, radix as nat, max as nat) == Some(v as nat),
            None => parse_uint(s@, radix as nat, max as nat) is None,
        },
{
    let start: usize = if s.len() > 0 && s[0] == '+' {
        1
    } else {
        0
    };
    let ghost body = uint_digits(s@);
    assert(body =~= s@.subrange(start as int, s@.len() as int));
    if start >= s.len() {
        return None;
    }
    let mut v: u64 = 0;
    let mut i: usize = start;
    assert(body.take(0) =~= Seq::<char>::empty());
    while i < s.len()
        invariant
            start <= i <= s.len(),
            start < s.len(),
            radix == 10 || radix == 16,
            body == uint_digits(s@),
            body == s@.subrange(start as int, s@.len() as int),
            v as nat == digits_value(body.take(i - start), radix as nat),
            v <= max,
            all_digits(body.take(i - start), radix as nat),
        decreases s.len() - i,
    {
        let k = i - start;
        let ghost t = body.take(k + 1);
        assert(t.drop_last() =~= body.take(k as int));
        assert(t.last() == s@[i as int]);
        match digit(s[i], radix) {
            None => {
                assert(body[k as int] == s@[i as int]);
                assert(digit_value(body[k as int], radix as nat) is None);
                return None;
            },
            Some(d) => {
                proof {
                    lemma_uint_step(v as int, d as int, radix as int, max as int);
                }
                if d > max || v > (max - d) / radix {
                    proof {
                        lemma_uint_too_big(body, radix as nat, max as nat, k as int);
                    }
                    return None;
                }
                v = v * radix + d;
                assert(all_digits(t, radix as nat)) by {
                    assert forall|m: int| 0 <= m < t.len() implies (#[trigger] digit_value(
                        t[m],
                        radix as nat,
                    )) is Some by {
                        if m < k {
                            assert(t[m] == body.take(k as int)[m]);
                        }
                    }
                }
            },
        }
        i += 1;
    }
    assert(body.take(body.len() as int) =~= body);
    Some(v)
}

/// Append the decimal rendering of `n` to `out`.
pub fn push_dec(out: &mut Vec<char>, n: u64)
    ensures
        final(out)@ == old(out)@ + dec(n as nat),
    decreases n,
{
    if n >= 10 {
        push_dec(out, n / 10);
    }
    let d = (n % 10) as u8;
    out.push((d + 48u8) as char);
}

/// Append `n` in decimal, zero-padded to at least `width` characters.
pub fn push_dec_padded(out: &mut Vec<char>, n: u64, width: usize)
    ensures
        final(out)@ == old(out)@ + dec_padded(n as nat, width as nat),
{
    let mut d: Vec<char> = Vec::new();
    push_dec(&mut d, n);
    assert(d@ =~= dec(n as nat));
    if d.len() < width {
        let ghost start = out@;
        let mut k: usize = 0;
        while k < width - d.len()
            invariant
                d.len() < width,
                k <= width - d.len(),
                out@ == start + Seq::new(k as nat, |i: int| '0'),
            decreases width - d.len() - k,
        {
            out.push('0');
            k += 1;
            assert(out@ =~= start + Seq::new(k as nat, |i: int| '0'));
        }
        push_chars(out, &d);
        assert(out@ =~= start + dec_padded(n as nat, width as nat));
    } else {
        push_chars(out, &d);
    }
}

/// Append the two lowercase hexadecimal digits of `b`.
pub fn push_hex2(out: &mut Vec<char>, b: u8)
    ensures
        final(out)@ == old(out)@ + hex2(b),
{
    let hi = b / 16;
    let lo = b % 16;
    out.push(if hi < 10 { (hi + 48) as char } else { (hi + 87) as char });
    out.push(if lo < 10 { (lo + 48) as char } else { (lo + 87) as char });
    assert(out@ =~= old(out)@ + hex2(b));
}

/// Append `s`, then spaces up to `width` characters in all.
pub fn push_padded(out: &mut Vec<char>, s: &[char], width: usize)
    ensures
        final(out)@ == old(out)@ + pad_right(s@, width as nat),
{
    let ghost start = out@;
    push_chars(out, s);
    if s.len() < width {
        let mut k: usize = 0;
        while k < width - s.len()
            invariant
                s.len() < width,
                k <= width - s.len(),
                out@ == start + s@ + Seq::new(k as nat, |i: int| ' '),
            decreases width - s.len() - k,
        {
            out.push(' ');
            k += 1;
            assert(out@ =~= start + s@ + Seq::new(k as nat, |i: int| ' '));
        }
        assert(out@ =~= start + pad_right(s@, width as nat));
    }
}


/// Are the characters `a` exactly the text `s`?
pub fn eq_str(a: &[char], s: &str) -> (r: bool)
    ensures
        r == (a@ == s@),
{
    let b = chars_of(s);
    if a.len() != b.len() {
        return false;
    }
    let mut k: usize = 0;
    while k < a.len()
        invariant
            k <= a.len() == b.len(),
            b@ == s@,
            forall|j: int| 0 <= j < k ==> a@[j] == b@[j],
        decreases a.len() - k,
    {
        if a[k] != b[k] {
            return false;
        }
        k += 1;
    }
    assert(a@ =~= b@);
    true
}


// ---------------------------------------------------------------------------
// Facts about the text forms, used to show that written text reads back
// ---------------------------------------------------------------------------

/// `c` does not occur in `t`.
pub open spec fn lacks(t: Seq<char>, c: char) -> bool {
    forall|i: int| 0 <= i < t.len() ==> t[i] != c
}

/// No character of `t` is whitespace.
pub open spec fn no_ws(t: Seq<char>) -> bool {
    forall|i: int| 0 <= i < t.len() ==> !is_ws(t[i])
}

/// Text free of the separator extends the last piece of a split.
pub proof fn lemma_split_extend(p: Seq<char>, t: Seq<char>, sep: char)
    requires
        lacks(t, sep),
    ensures
        split(p + t, sep) == split(p, sep).update(
            split(p, sep).len() - 1,
            split(p, sep).last() + t,
        ),
    decreases t.len(),
{
    lemma_split_nonempty(p, sep);
    if t.len() == 0 {
        assert(p + t =~= p);
        assert(split(p, sep).last() + t =~= split(p, sep).last());
        assert(split(p, sep).update(split(p, sep).len() - 1, split(p, sep).last() + t) =~= split(p, sep));
    } else {
        let u = t.drop_last();
        lemma_split_extend(p, u, sep);
        assert((p + t).drop_last() =~= p + u);
        assert((p + t).last() == t.last());
        let r = split(p + u, sep);
        assert(r.last() == split(p, sep).last() + u);
        assert(r.last().push(t.last()) =~= split(p, sep).last() + t);
        assert(split(p + t, sep) =~= split(p, sep).update(split(p, sep).len() - 1, split(p, sep).last() + t));
    }
}

/// Text free of the separator is one piece.
pub proof fn lemma_split_plain(t: Seq<char>, sep: char)
    requires
        lacks(t, sep),
    ensures
        split(t, sep) == seq![t],
{
    lemma_split_extend(Seq::<char>::empty(), t, sep);
    assert(Seq::<char>::empty() + t =~= t);
    assert(Seq::<char>::empty() + t =~= t);
    assert(seq![Seq::<char>::empty()].update(0, Seq::<char>::empty() + t) =~= seq![t]);
}

/// A separator followed by separator-free text adds one piece.
pub proof fn lemma_split_append(p: Seq<char>, t: Seq<char>, sep: char)
    requires
        lacks(t, sep),
    ensures
        split(p + seq![sep] + t, sep) == split(p, sep).push(t),
{
    let q = p + seq![sep];
    lemma_split_extend(q, t, sep);
    assert(q.drop_last() =~= p);
    let r = split(q, sep);
    assert(r == split(p, sep).push(Seq::<char>::empty()));
    assert(Seq::<char>::empty() + t =~= t);
    assert(r.update(r.len() - 1, r.last() + t) =~= split(p, sep).push(t));
}

/// Non-empty text without whitespace, after nothing or after whitespace,
/// is one more word.
pub proof fn lemma_words_extend(q: Seq<char>, t: Seq<char>)
    requires
        q.len() == 0 || is_ws(q.last()),
        t.len() > 0,
        no_ws(t),
    ensures
        words(q + t) == words(q).push(t),
    decreases t.len(),
{
    let s = q + t;
    assert(s.last() == t.last());
    if t.len() == 1 {
        assert(s.drop_last() =~= q);
        assert(seq![t.last()] =~= t);
        if s.len() >= 2 {
            assert(s[s.len() - 2] == q.last());
        }
    } else {
        let u = t.drop_last();
        lemma_words_extend(q, u);
        assert(s.drop_last() =~= q + u);
        assert(s[s.len() - 2] == u.last());
        assert(u.push(t.last()) =~= t);
        let r = words(q + u);
        assert(r.update(r.len() - 1, r.last().push(t.last())) =~= words(q).push(t));
    }
}

/// Words separated by one space.
pub proof fn lemma_words_append(p: Seq<char>, t: Seq<char>)
    requires
        t.len() > 0,
        no_ws(t),
    ensures
        words(p + seq![' '] + t) == words(p).push(t),
{
    let q = p + seq![' '];
    assert(is_ws(q.last()));
    assert(q.drop_last() =~= p);
    lemma_words_extend(q, t);
}

/// Non-empty text without whitespace is one word.
pub proof fn lemma_words_plain(t: Seq<char>)
    requires
        t.len() > 0,
        no_ws(t),
    ensures
        words(t) == seq![t],
{
    lemma_words_extend(Seq::<char>::empty(), t);
    assert(Seq::<char>::empty() + t =~= t);
}

/// Joining two texts with a space adds no character other than the space.
pub proof fn lemma_spaced_lacks(a: Seq<char>, b: Seq<char>, c: char)
    requires
        lacks(a, c),
        lacks(b, c),
        c != ' ',
    ensures
        lacks(a + seq![' '] + b, c),
{
    let s = a + seq![' '] + b;
    assert forall|i: int| 0 <= i < s.len() implies s[i] != c by {
        if i < a.len() {
            assert(s[i] == a[i]);
        } else if i > a.len() {
            assert(s[i] == b[i - a.len() - 1]);
        }
    }
}

/// Text without whitespace has no line break.
pub proof fn lemma_no_ws_no_newline(t: Seq<char>)
    requires
        no_ws(t),
    ensures
        lacks(t, '\n'),
{
    assert forall|i: int| 0 <= i < t.len() implies t[i] != '\n' by {
        assert(!is_ws(t[i]));
    }
}

/// Text that neither starts nor ends with whitespace is its own trim.
pub proof fn lemma_trim_noop(s: Seq<char>)
    requires
        s.len() > 0,
        !is_ws(s[0]),
        !is_ws(s.last()),
    ensures
        trim(s) == s,
{
    assert(trim_start(s) == s);
}

/// A decimal digit character.
pub open spec fn is_dec_char(c: char) -> bool {
    0x30 <= c as u32 <= 0x39
}

/// The decimal rendering: non-empty, digits only, no leading zero, short
/// for small numbers, and worth `n`.
pub proof fn lemma_dec(n: nat)
    ensures
        dec(n).len() >= 1,
        forall|i: int| 0 <= i < dec(n).len() ==> #[trigger] is_dec_char(dec(n)[i]),
        all_digits(dec(n), 10),
        digits_value(dec(n), 10) == n,
        n > 0 ==> dec(n)[0] != '0',
        n < 10 ==> dec(n).len() == 1,
        n < 100 ==> dec(n).len() <= 2,
        n < 1000 ==> dec(n).len() <= 3,
    decreases n,
{
    if n >= 10 {
        lemma_dec(n / 10);
        let d = dec(n / 10);
        let s = dec(n);
        assert(s == d.push(dec_char(n % 10)));
        assert(s.drop_last() =~= d);
        assert forall|i: int| 0 <= i < s.len() implies #[trigger] is_dec_char(s[i]) by {
            if i < d.len() {
                assert(s[i] == d[i]);
            }
        }
        assert(s[0] == d[0]);
        assert(digit_value(dec_char(n % 10), 10) == Some(n % 10));
        assert(s.last() == dec_char(n % 10));
        assert(digits_value(s, 10) == digits_value(d, 10) * 10 + n % 10);
    } else {
        assert(digit_value(dec_char(n), 10) == Some(n));
        assert(dec(n).drop_last() =~= Seq::<char>::empty());
        assert(digits_value(Seq::<char>::empty(), 10) == 0);
        assert(digits_value(dec(n), 10) == 0 * 10 + n);
    }
    let s = dec(n);
    assert forall|i: int| 0 <= i < s.len() implies (#[trigger] digit_value(s[i], 10)) is Some by {
        assert(is_dec_char(s[i]));
    }
}

/// Decimal text reads back as its number.
pub proof fn lemma_parse_dec(n: nat, max: nat)
    requires
        n <= max,
    ensures
        parse_uint(dec(n), 10, max) == Some(n),
{
    lemma_dec(n);
    assert(is_dec_char(dec(n)[0]));
    assert(uint_digits(dec(n)) == dec(n));
}

/// Two hexadecimal digits read back as their byte.
pub proof fn lemma_parse_hex2(b: u8)
    ensures
        parse_uint(hex2(b), 16, 255) == Some(b as nat),
        hex2(b).len() == 2,
        lacks(hex2(b), ':'),
        no_ws(hex2(b)),
        hex2(b)[0] != '#',
{
    let h = hex2(b);
    let hi = (b / 16) as nat;
    let lo = (b % 16) as nat;
    assert(digit_value(hex_char(hi), 16) == Some(hi));
    assert(digit_value(hex_char(lo), 16) == Some(lo));
    assert(uint_digits(h) == h);
    assert(h.drop_last() =~= seq![hex_char(hi)]);
    assert(seq![hex_char(hi)].drop_last() =~= Seq::<char>::empty());
    assert(digits_value(Seq::<char>::empty(), 16) == 0);
    assert(digits_value(seq![hex_char(hi)], 16) == 0 * 16 + hi);
    assert(h.last() == hex_char(lo));
    assert(digits_value(h, 16) == hi * 16 + lo);
    assert(all_digits(h, 16)) by {
        assert forall|i: int| 0 <= i < h.len() implies (#[trigger] digit_value(h[i], 16)) is Some by {
            if i == 0 {
                assert(h[i] == hex_char(hi));
            } else {
                assert(h[i] == hex_char(lo));
            }
        }
    }
}


/// Every character of `w` is whitespace.
pub open spec fn all_ws(w: Seq<char>) -> bool {
    forall|i: int| 0 <= i < w.len() ==> is_ws(w[i])
}

/// Leading whitespace before text that starts with a non-space is dropped.
proof fn lemma_trim_start_padded(w: Seq<char>, t: Seq<char>)
    requires
        all_ws(w),
        t.len() > 0,
        !is_ws(t[0]),
    ensures
        trim_start(w + t) == t,
    decreases w.len(),
{
    if w.len() == 0 {
        assert(w + t =~= t);
    } else {
        assert(is_ws(w[0]));
        assert((w + t)[0] == w[0]);
        assert((w + t).drop_first() =~= w.drop_first() + t);
        lemma_trim_start_padded(w.drop_first(), t);
    }
}

/// Trailing whitespace after text that ends with a non-space is dropped.
proof fn lemma_trim_end_padded(t: Seq<char>, w: Seq<char>)
    requires
        all_ws(w),
        t.len() > 0,
        !is_ws(t.last()),
    ensures
        trim_end(t + w) == t,
    decreases w.len(),
{
    if w.len() == 0 {
        assert(t + w =~= t);
    } else {
        assert(is_ws(w[w.len() - 1]));
        assert((t + w).last() == w.last());
        assert((t + w).drop_last() =~= t + w.drop_last());
        lemma_trim_end_padded(t, w.drop_last());
    }
}

/// Whitespace around a word is what trimming removes, and nothing more.
pub proof fn lemma_trim_padded(w1: Seq<char>, t: Seq<char>, w2: Seq<char>)
    requires
        all_ws(w1),
        all_ws(w2),
        t.len() > 0,
        !is_ws(t[0]),
        !is_ws(t.last()),
    ensures
        trim(w1 + t + w2) == t,
        trim(t) == t,
{
    assert(w1 + t + w2 =~= w1 + (t + w2));
    assert((t + w2)[0] == t[0]);
    lemma_trim_start_padded(w1, t + w2);
    lemma_trim_end_padded(t, w2);
    lemma_trim_noop(t);
}

/// Whitespace holds no character that is not whitespace, such as a comma.
pub proof fn lemma_ws_lacks(w: Seq<char>, c: char)
    requires
        all_ws(w),
        !is_ws(c),
    ensures
        lacks(w, c),
{
    assert forall|i: int| 0 <= i < w.len() implies w[i] != c by {
        assert(is_ws(w[i]));
    }
}

/// Joining texts free of `c` gives a text free of `c`.
pub proof fn lemma_concat_lacks(a: Seq<char>, b: Seq<char>, c: char)
    requires
        lacks(a, c),
        lacks(b, c),
    ensures
        lacks(a + b, c),
{
    assert forall|i: int| 0 <= i < (a + b).len() implies (a + b)[i] != c by {
        if i < a.len() {
            assert((a + b)[i] == a[i]);
        } else {
            assert((a + b)[i] == b[i - a.len()]);
        }
    }
}
}
