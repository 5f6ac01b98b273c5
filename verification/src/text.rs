//! Character-level text handling for the kernel's `/proc` formats.
//!
//! Contents are handled as sequences of `char`s. The spec functions below
//! describe line splitting, whitespace trimming, word splitting and unsigned
//! integer parsing the way the standard library's `str` methods do them.
use vstd::prelude::*;

verus! {

/// The Unicode `White_Space` property, as tested by `char::is_whitespace`.
pub open spec fn is_ws(c: char) -> bool {
    let u = c as u32;
    ||| 0x09 <= u <= 0x0d
    ||| u == 0x20
    ||| u == 0x85
    ||| u == 0xa0
    ||| u == 0x1680
    ||| 0x2000 <= u <= 0x200a
    ||| u == 0x2028
    ||| u == 0x2029
    ||| u == 0x202f
    ||| u == 0x205f
    ||| u == 0x3000
}

/// Whether `c` is Unicode white space.
pub fn is_whitespace(c: char) -> (b: bool)
    ensures
        b == is_ws(c),
{
    let u = c as u32;
    (0x09 <= u && u <= 0x0d) || u == 0x20 || u == 0x85 || u == 0xa0 || u == 0x1680 || (0x2000
        <= u && u <= 0x200a) || u == 0x2028 || u == 0x2029 || u == 0x202f || u == 0x205f || u
        == 0x3000
}

/// Number of bytes of `c` in UTF-8.
pub open spec fn char_width(c: char) -> nat {
    let u = c as u32;
    if u < 0x80 {
        1
    } else if u < 0x800 {
        2
    } else if u < 0x10000 {
        3
    } else {
        4
    }
}

/// Number of bytes of `s` in UTF-8 (what `str::len` returns).
pub open spec fn byte_len(s: Seq<char>) -> nat
    decreases s.len(),
{
    if s.len() == 0 {
        0
    } else {
        byte_len(s.drop_last()) + char_width(s.last())
    }
}

/// Index of the first occurrence of `c` in `s`, or `s.len()` when there is none.
pub open spec fn first_index(s: Seq<char>, c: char) -> int
    decreases s.len(),
{
    if s.len() == 0 {
        0
    } else if s[0] == c {
        0
    } else {
        1 + first_index(s.drop_first(), c)
    }
}

/// Index of the first white-space char in `s`, or `s.len()` when there is none.
pub open spec fn first_ws(s: Seq<char>) -> int
    decreases s.len(),
{
    if s.len() == 0 {
        0
    } else if is_ws(s[0]) {
        0
    } else {
        1 + first_ws(s.drop_first())
    }
}

pub proof fn lemma_first_index_bounds(s: Seq<char>, c: char)
    ensures
        0 <= first_index(s, c) <= s.len(),
        first_index(s, c) < s.len() ==> s[first_index(s, c)] == c,
        forall|i: int| 0 <= i < first_index(s, c) ==> s[i] != c,
    decreases s.len(),
{
    if s.len() > 0 && s[0] != c {
        lemma_first_index_bounds(s.drop_first(), c);
        assert forall|i: int| 0 <= i < first_index(s, c) implies s[i] != c by {
            if i > 0 {
                assert(s[i] == s.drop_first()[i - 1]);
            }
        }
    }
}

pub proof fn lemma_first_ws_bounds(s: Seq<char>)
    ensures
        0 <= first_ws(s) <= s.len(),
        s.len() > 0 && !is_ws(s[0]) ==> first_ws(s) >= 1,
        first_ws(s) < s.len() ==> is_ws(s[first_ws(s)]),
        forall|i: int| 0 <= i < first_ws(s) ==> !is_ws(s[i]),
    decreases s.len(),
{
    if s.len() > 0 && !is_ws(s[0]) {
        lemma_first_ws_bounds(s.drop_first());
        assert forall|i: int| 0 <= i < first_ws(s) implies !is_ws(s[i]) by {
            if i > 0 {
                assert(s[i] == s.drop_first()[i - 1]);
            }
        }
    }
}

/// Drops a final `'\r'`.
pub open spec fn strip_cr(l: Seq<char>) -> Seq<char> {
    if l.len() > 0 && l.last() == '\r' {
        l.drop_last()
    } else {
        l
    }
}

/// The lines of `s`, as `str::lines` gives them: split at `'\n'`, a `'\r'` before
/// the `'\n'` dropped, and no empty line after a final `'\n'`.
pub open spec fn lines(s: Seq<char>) -> Seq<Seq<char>>
    decreases s.len(),
{
    if s.len() == 0 {
        seq![]
    } else {
        let k = first_index(s, '\n');
        if k < s.len() {
            proof {
                lemma_first_index_bounds(s, '\n');
            }
            seq![strip_cr(s.take(k))] + lines(s.skip(k + 1))
        } else {
            seq![s]
        }
    }
}

/// The first `c` in `a + [c] + b`, where `a` holds no `c`, is right after
/// `a`.
pub proof fn lemma_first_index_after(a: Seq<char>, c: char, b: Seq<char>)
    requires
        !has_char(a, c),
    ensures
        first_index(a + seq![c] + b, c) == a.len(),
    decreases a.len(),
{
    if a.len() > 0 {
        assert((a + seq![c] + b).drop_first() == a.drop_first() + seq![c] + b);
        assert(!has_char(a.drop_first(), c)) by {
            if has_char(a.drop_first(), c) {
                let i = choose|i: int| 0 <= i < a.drop_first().len() && a.drop_first()[i] == c;
                assert(a[i + 1] == c);
            }
        }
        assert((a + seq![c] + b)[0] == a[0]);
        lemma_first_index_after(a.drop_first(), c, b);
    }
}

/// The lines of `a + "\n" + b`, where `a` holds no newline: `a`, without a
/// final `'\r'`, then the lines of `b`.
pub proof fn lemma_lines_first(a: Seq<char>, b: Seq<char>)
    requires
        !has_char(a, '\n'),
    ensures
        lines(a + seq!['\n'] + b) == seq![strip_cr(a)] + lines(b),
{
    let s = a + seq!['\n'] + b;
    lemma_first_index_after(a, '\n', b);
    assert(s.take(a.len() as int) == a);
    assert(s.skip(a.len() as int + 1) == b);
}

/// A line that is not empty and holds no newline is its own only line.
pub proof fn lemma_lines_single(a: Seq<char>)
    requires
        a.len() > 0,
        !has_char(a, '\n'),
    ensures
        lines(a) == seq![a],
{
    lemma_first_index_bounds(a, '\n');
}

/// Joining two texts with a newline joins their lines: the lines of
/// `s + "\n" + t` are those of `s + "\n"` and then those of `t`.
pub proof fn lemma_lines_join(s: Seq<char>, t: Seq<char>)
    ensures
        lines(s + seq!['\n'] + t) == lines(s + seq!['\n']) + lines(t),
    decreases s.len(),
{
    if !has_char(s, '\n') {
        lemma_lines_first(s, t);
        lemma_lines_first(s, Seq::empty());
        assert(s + seq!['\n'] + Seq::<char>::empty() == s + seq!['\n']);
    } else {
        lemma_first_index_bounds(s, '\n');
        let k = first_index(s, '\n');
        if k >= s.len() {
            let i = choose|i: int| 0 <= i < s.len() && s[i] == '\n';
            assert(false);
        }
        let x = s.take(k);
        let y = s.skip(k + 1);
        assert(!has_char(x, '\n'));
        assert(s == x + seq!['\n'] + y);
        assert(s + seq!['\n'] + t == x + seq!['\n'] + (y + seq!['\n'] + t));
        assert(s + seq!['\n'] == x + seq!['\n'] + (y + seq!['\n']));
        lemma_lines_first(x, y + seq!['\n'] + t);
        lemma_lines_first(x, y + seq!['\n']);
        lemma_lines_join(y, t);
        assert(seq![strip_cr(x)] + (lines(y + seq!['\n']) + lines(t)) == (seq![strip_cr(x)] + lines(
            y + seq!['\n'],
        )) + lines(t));
    }
}

/// `s` without its leading white space.
pub open spec fn trim_start(s: Seq<char>) -> Seq<char>
    decreases s.len(),
{
    if s.len() > 0 && is_ws(s[0]) {
        trim_start(s.drop_first())
    } else {
        s
    }
}

/// `s` without its trailing white space.
pub open spec fn trim_end(s: Seq<char>) -> Seq<char>
    decreases s.len(),
{
    if s.len() > 0 && is_ws(s.last()) {
        trim_end(s.drop_last())
    } else {
        s
    }
}

/// `s` without leading and trailing white space (`str::trim`).
pub open spec fn trim(s: Seq<char>) -> Seq<char> {
    trim_end(trim_start(s))
}

/// The white-space separated words of `s` (`str::split_whitespace`).
pub open spec fn words(s: Seq<char>) -> Seq<Seq<char>>
    decreases s.len(),
{
    if s.len() == 0 {
        seq![]
    } else if is_ws(s[0]) {
        words(s.drop_first())
    } else {
        let k = first_ws(s);
        proof {
            lemma_first_ws_bounds(s);
        }
        seq![s.take(k)] + words(s.skip(k))
    }
}

/// `s` without all trailing `c` chars (`str::trim_end_matches` with a char).
pub open spec fn trim_end_char(s: Seq<char>, c: char) -> Seq<char>
    decreases s.len(),
{
    if s.len() > 0 && s.last() == c {
        trim_end_char(s.drop_last(), c)
    } else {
        s
    }
}

proof fn lemma_first_ws_push(l: Seq<char>, w: char)
    requires
        is_ws(w),
    ensures
        first_ws(l.push(w)) == first_ws(l),
    decreases l.len(),
{
    if l.len() > 0 && !is_ws(l[0]) {
        assert(l.push(w).drop_first() == l.drop_first().push(w));
        lemma_first_ws_push(l.drop_first(), w);
    }
}

proof fn lemma_trim_start_push(l: Seq<char>, w: char)
    requires
        is_ws(w),
    ensures
        trim_start(l.push(w)) == (if trim_start(l).len() == 0 {
            Seq::<char>::empty()
        } else {
            trim_start(l).push(w)
        }),
    decreases l.len(),
{
    if l.len() == 0 {
        assert(l.push(w) == seq![w]);
        assert(seq![w].drop_first() == Seq::<char>::empty());
        assert(trim_start(Seq::<char>::empty()) == Seq::<char>::empty());
    } else {
        assert(l.push(w)[0] == l[0]);
        if is_ws(l[0]) {
            assert(l.push(w).drop_first() == l.drop_first().push(w));
            lemma_trim_start_push(l.drop_first(), w);
        }
    }
}

/// White space added at the end of a line changes neither its trimmed text
/// nor its words.
pub proof fn lemma_push_ws(l: Seq<char>, w: char)
    requires
        is_ws(w),
    ensures
        trim(l.push(w)) == trim(l),
        words(l.push(w)) == words(l),
    decreases l.len(),
{
    lemma_trim_start_push(l, w);
    if trim_start(l).len() > 0 {
        assert(trim_start(l).push(w).drop_last() == trim_start(l));
    }
    if l.len() == 0 {
        assert(l.push(w) == seq![w]);
        assert(seq![w].drop_first() == Seq::<char>::empty());
        assert(words(Seq::<char>::empty()) == Seq::<Seq<char>>::empty());
    } else if is_ws(l[0]) {
        assert(l.push(w)[0] == l[0]);
        assert(l.push(w).drop_first() == l.drop_first().push(w));
        lemma_push_ws(l.drop_first(), w);
    } else {
        assert(l.push(w)[0] == l[0]);
        lemma_first_ws_push(l, w);
        lemma_first_ws_bounds(l);
        let k = first_ws(l);
        assert(l.push(w).take(k) == l.take(k));
        if k < l.len() {
            assert(l.push(w).skip(k) == l.skip(k).push(w));
            lemma_push_ws(l.skip(k), w);
        } else {
            assert(l.push(w).skip(k) == seq![w]);
            assert(seq![w].drop_first() == Seq::<char>::empty());
            assert(words(Seq::<char>::empty()) == Seq::<Seq<char>>::empty());
            assert(words(seq![w]) == Seq::<Seq<char>>::empty());
            assert(l.skip(k) == Seq::<char>::empty());
        }
    }
}

/// Whether `p` is a prefix of `s`.
pub open spec fn has_prefix(s: Seq<char>, p: Seq<char>) -> bool {
    p.len() <= s.len() && s.take(p.len() as int) == p
}

/// Whether `p` occurs in `s`.
pub open spec fn has_infix(s: Seq<char>, p: Seq<char>) -> bool {
    exists|i: int| 0 <= i && i + p.len() <= s.len() && #[trigger] s.subrange(i, i + p.len()) == p
}

/// Whether `s` holds the char `c`.
pub open spec fn has_char(s: Seq<char>, c: char) -> bool {
    exists|i: int| 0 <= i < s.len() && s[i] == c
}

/// The value of `c` as a digit in base `radix` (10 or 16), or -1.
pub open spec fn digit_value(c: char, radix: u32) -> int {
    let u = c as u32;
    if 0x30 <= u <= 0x39 {
        u - 0x30
    } else if radix == 16 && 0x61 <= u <= 0x66 {
        u - 0x61 + 10
    } else if radix == 16 && 0x41 <= u <= 0x46 {
        u - 0x41 + 10
    } else {
        -1
    }
}

pub open spec fn all_digits(s: Seq<char>, radix: u32) -> bool {
    forall|i: int| 0 <= i < s.len() ==> digit_value(#[trigger] s[i], radix) >= 0
}

/// The number that the digits of `s` write in base `radix`.
pub open spec fn digits_value(s: Seq<char>, radix: u32) -> int
    decreases s.len(),
{
    if s.len() == 0 {
        0
    } else {
        digits_value(s.drop_last(), radix) * radix + digit_value(s.last(), radix)
    }
}

/// `u64::from_str_radix(s, radix).ok()`: an optional `'+'`, then one or more
/// digits, whose value fits in a `u64`.
pub open spec fn parse_uint(s: Seq<char>, radix: u32) -> Option<u64> {
    let d = if s.len() > 0 && s[0] == '+' {
        s.drop_first()
    } else {
        s
    };
    if d.len() > 0 && all_digits(d, radix) && digits_value(d, radix) <= u64::MAX {
        Some(digits_value(d, radix) as u64)
    } else {
        None
    }
}

/// `s.parse::<u64>().ok()`.
pub open spec fn parse_dec(s: Seq<char>) -> Option<u64> {
    parse_uint(s, 10)
}

/// `u64::from_str_radix(s, 16).ok()`.
pub open spec fn parse_hex(s: Seq<char>) -> Option<u64> {
    parse_uint(s, 16)
}

/// The chars of `s`.
pub fn to_chars(s: &str) -> (v: Vec<char>)
    ensures
        v@ == s@,
{
    broadcast use vstd::string::group_string_axioms;

    let mut v: Vec<char> = Vec::new();
    for c in it: s.chars()
        invariant
            it.seq() == s@,
            v@ == it.seq().take(it.index() as int),
    {
        v.push(c);
    }
    v
}

/// Appends `c` to `s`.
///
/// Trusted, not proved: the body calls std's `String::push`, which its
/// documentation says appends the char to the end of the string; the contract
/// claims just that, the chars afterwards being those before with `c` last.
#[verifier::external_body]
fn push_char(s: &mut String, c: char)
    ensures
        final(s)@ == old(s)@.push(c),
{
    s.push(c);
}

/// A new string made of `cs[lo..hi]`.
pub fn string_from(cs: &Vec<char>, lo: usize, hi: usize) -> (s: String)
    requires
        lo <= hi <= cs.len(),
    ensures
        s@ == cs@.subrange(lo as int, hi as int),
{
    let mut s = String::new();
    let mut i = lo;
    while i < hi
        invariant
            lo <= i <= hi <= cs.len(),
            s@ == cs@.subrange(lo as int, i as int),
        decreases hi - i,
    {
        push_char(&mut s, cs[i]);
        assert(cs@.subrange(lo as int, i + 1) == cs@.subrange(lo as int, i as int).push(cs@[i as int]));
        i += 1;
    }
    s
}

/// `lo` plus the index of the first `c` in `cs[lo..hi]`, or `hi`.
pub fn find_char(cs: &Vec<char>, lo: usize, hi: usize, c: char) -> (k: usize)
    requires
        lo <= hi <= cs.len(),
    ensures
        k == lo + first_index(cs@.subrange(lo as int, hi as int), c),
        lo <= k <= hi,
{
    let mut j = lo;
    while j < hi && cs[j] != c
        invariant
            lo <= j <= hi <= cs.len(),
            first_index(cs@.subrange(lo as int, hi as int), c) == (j - lo) + first_index(
                cs@.subrange(j as int, hi as int),
                c,
            ),
        decreases hi - j,
    {
        assert(cs@.subrange(j as int, hi as int).drop_first() == cs@.subrange(j + 1, hi as int));
        j += 1;
    }
    j
}

/// `lo` plus the index of the first white-space char in `cs[lo..hi]`, or `hi`.
pub fn find_ws(cs: &Vec<char>, lo: usize, hi: usize) -> (k: usize)
    requires
        lo <= hi <= cs.len(),
    ensures
        k == lo + first_ws(cs@.subrange(lo as int, hi as int)),
        lo <= k <= hi,
{
    let mut j = lo;
    while j < hi && !is_whitespace(cs[j])
        invariant
            lo <= j <= hi <= cs.len(),
            first_ws(cs@.subrange(lo as int, hi as int)) == (j - lo) + first_ws(
                cs@.subrange(j as int, hi as int),
            ),
        decreases hi - j,
    {
        assert(cs@.subrange(j as int, hi as int).drop_first() == cs@.subrange(j + 1, hi as int));
        j += 1;
    }
    j
}

/// One step of `lines`: the first line of `cs[pos..]` and where the rest starts.
proof fn lemma_lines_step(cs: Seq<char>, pos: int, j: int)
    requires
        0 <= pos < cs.len(),
        j == pos + first_index(cs.subrange(pos, cs.len() as int), '\n'),
    ensures
        j < cs.len() ==> lines(cs.skip(pos)) == seq![strip_cr(cs.subrange(pos, j))] + lines(
            cs.skip(j + 1),
        ),
        j >= cs.len() ==> lines(cs.skip(pos)) == seq![cs.subrange(pos, cs.len() as int)],
{
    let s = cs.skip(pos);
    assert(cs.subrange(pos, cs.len() as int) == s);
    lemma_first_index_bounds(s, '\n');
    if j < cs.len() {
        assert(s.take(j - pos) == cs.subrange(pos, j));
        assert(s.skip(j - pos + 1) == cs.skip(j + 1));
    }
}

/// The char ranges of the lines of `cs`.
#[verifier::spinoff_prover]
pub fn line_ranges(cs: &Vec<char>) -> (r: Vec<(usize, usize)>)
    ensures
        r.len() == lines(cs@).len(),
        forall|k: int|
            0 <= k < r.len() ==> #[trigger] r@[k].0 <= r@[k].1 <= cs.len() && cs@.subrange(
                r@[k].0 as int,
                r@[k].1 as int,
            ) == lines(cs@)[k],
{
    let mut r: Vec<(usize, usize)> = Vec::new();
    let mut pos: usize = 0;
    let n = cs.len();
    let ghost mut done: Seq<Seq<char>> = seq![];
    assert(cs@.skip(0) == cs@);
    while pos < n
        invariant
            n == cs.len(),
            pos <= n,
            r.len() == done.len(),
            forall|k: int|
                0 <= k < r.len() ==> #[trigger] r@[k].0 <= r@[k].1 <= n && cs@.subrange(
                    r@[k].0 as int,
                    r@[k].1 as int,
                ) == done[k],
            lines(cs@) == done + lines(cs@.skip(pos as int)),
        decreases n - pos,
    {
        let j = find_char(cs, pos, n, '\n');
        proof {
            lemma_lines_step(cs@, pos as int, j as int);
        }
        let ghost old_done = done;
        let ghost old_pos = pos;
        let ghost old_r = r@;
        let mut hi = j;
        if j < n {
            if hi > pos && cs[hi - 1] == '\r' {
                hi = hi - 1;
            }
            assert(strip_cr(cs@.subrange(pos as int, j as int)) == cs@.subrange(pos as int, hi as int));
        }
        r.push((pos, hi));
        proof {
            done = done.push(cs@.subrange(old_pos as int, hi as int));
            assert forall|k: int| 0 <= k < r.len() implies #[trigger] r@[k].0 <= r@[k].1 <= n
                && cs@.subrange(r@[k].0 as int, r@[k].1 as int) == done[k] by {
                if k < old_r.len() {
                    assert(r@[k] == old_r[k]);
                }
            }
        }
        if j < n {
            pos = j + 1;
        } else {
            pos = n;
            assert(lines(cs@.skip(pos as int)) =~= Seq::<Seq<char>>::empty());
        }
        assert(old_done + lines(cs@.skip(old_pos as int)) == done + lines(cs@.skip(pos as int)));
    }
    assert(lines(cs@.skip(n as int)) =~= Seq::<Seq<char>>::empty());
    assert(done + lines(cs@.skip(n as int)) == done);
    r
}

/// The range of `cs[lo..hi]` that `trim` keeps.
pub fn trim_range(cs: &Vec<char>, lo: usize, hi: usize) -> (r: (usize, usize))
    requires
        lo <= hi <= cs.len(),
    ensures
        lo <= r.0 <= r.1 <= hi,
        cs@.subrange(r.0 as int, r.1 as int) == trim(cs@.subrange(lo as int, hi as int)),
        cs@.subrange(r.0 as int, hi as int) == trim_start(cs@.subrange(lo as int, hi as int)),
{
    let mut a = lo;
    while a < hi && is_whitespace(cs[a])
        invariant
            lo <= a <= hi <= cs.len(),
            trim_start(cs@.subrange(lo as int, hi as int)) == trim_start(
                cs@.subrange(a as int, hi as int),
            ),
        decreases hi - a,
    {
        assert(cs@.subrange(a as int, hi as int).drop_first() == cs@.subrange(a + 1, hi as int));
        a += 1;
    }
    let mut b = hi;
    while b > a && is_whitespace(cs[b - 1])
        invariant
            lo <= a <= b <= hi <= cs.len(),
            trim_end(cs@.subrange(a as int, hi as int)) == trim_end(cs@.subrange(a as int, b as int)),
        decreases b - a,
    {
        assert(cs@.subrange(a as int, b as int).drop_last() == cs@.subrange(a as int, b - 1));
        b -= 1;
    }
    (a, b)
}

/// The char ranges of the words of `cs[lo..hi]`.
pub fn word_ranges(cs: &Vec<char>, lo: usize, hi: usize) -> (r: Vec<(usize, usize)>)
    requires
        lo <= hi <= cs.len(),
    ensures
        r.len() == words(cs@.subrange(lo as int, hi as int)).len(),
        forall|k: int|
            0 <= k < r.len() ==> #[trigger] r@[k].0 <= r@[k].1 <= hi && lo <= r@[k].0
                && cs@.subrange(r@[k].0 as int, r@[k].1 as int) == words(
                cs@.subrange(lo as int, hi as int),
            )[k],
{
    let mut r: Vec<(usize, usize)> = Vec::new();
    let mut pos = lo;
    let ghost mut done: Seq<Seq<char>> = seq![];
    while pos < hi
        invariant
            lo <= pos <= hi <= cs.len(),
            r.len() == done.len(),
            forall|k: int|
                0 <= k < r.len() ==> #[trigger] r@[k].0 <= r@[k].1 <= hi && lo <= r@[k].0
                    && cs@.subrange(r@[k].0 as int, r@[k].1 as int) == done[k],
            words(cs@.subrange(lo as int, hi as int)) == done + words(
                cs@.subrange(pos as int, hi as int),
            ),
        decreases hi - pos,
    {
        let ghost s = cs@.subrange(pos as int, hi as int);
        let ghost old_done = done;
        if is_whitespace(cs[pos]) {
            assert(s.drop_first() == cs@.subrange(pos + 1, hi as int));
            pos += 1;
        } else {
            let k = find_ws(cs, pos, hi);
            proof {
                lemma_first_ws_bounds(s);
            }
            assert(s.take(k - pos) == cs@.subrange(pos as int, k as int));
            assert(s.skip(k - pos) == cs@.subrange(k as int, hi as int));
            let ghost old_r = r@;
            r.push((pos, k));
            proof {
                done = done.push(cs@.subrange(pos as int, k as int));
                assert forall|t: int| 0 <= t < r.len() implies #[trigger] r@[t].0 <= r@[t].1 <= hi
                    && lo <= r@[t].0 && cs@.subrange(r@[t].0 as int, r@[t].1 as int) == done[t] by {
                    if t < old_r.len() {
                        assert(r@[t] == old_r[t]);
                    }
                }
            }
            assert(old_done + words(s) == done + words(cs@.subrange(k as int, hi as int)));
            pos = k;
        }
    }
    assert(words(cs@.subrange(hi as int, hi as int)) =~= Seq::<Seq<char>>::empty());
    assert(done + words(cs@.subrange(hi as int, hi as int)) == done);
    r
}

/// The value of `c` as a digit in base `radix`.
pub fn digit_of(c: char, radix: u32) -> (d: Option<u64>)
    ensures
        d == (if digit_value(c, radix) >= 0 {
            Some(digit_value(c, radix) as u64)
        } else {
            None
        }),
{
    let u = c as u32;
    if 0x30 <= u && u <= 0x39 {
        Some((u - 0x30) as u64)
    } else if radix == 16 && 0x61 <= u && u <= 0x66 {
        Some((u - 0x61 + 10) as u64)
    } else if radix == 16 && 0x41 <= u && u <= 0x46 {
        Some((u - 0x41 + 10) as u64)
    } else {
        None
    }
}

proof fn lemma_digits_monotone(s: Seq<char>, radix: u32, k: int)
    requires
        radix >= 1,
        all_digits(s, radix),
        0 <= k <= s.len(),
    ensures
        0 <= digits_value(s.take(k), radix) <= digits_value(s, radix),
    decreases s.len(),
{
    if s.len() > 0 {
        let p = s.drop_last();
        assert(all_digits(p, radix)) by {
            assert forall|i: int| 0 <= i < p.len() implies digit_value(#[trigger] p[i], radix) >= 0 by {
                assert(p[i] == s[i]);
            }
        }
        assert(digit_value(s[s.len() - 1], radix) >= 0);
        if k < s.len() {
            assert(s.take(k) == p.take(k));
            lemma_digits_monotone(p, radix, k);
        } else {
            assert(s.take(k) == s);
            lemma_digits_monotone(p, radix, 0);
        }
        let v = digits_value(p, radix);
        assert(v * radix >= v) by (nonlinear_arith)
            requires
                v >= 0,
                radix >= 1,
        ;
    } else {
        assert(s.take(k) == s);
    }
}

proof fn lemma_digit_step(cs: Seq<char>, d0: int, i: int, radix: u32)
    requires
        0 <= d0 <= i < cs.len(),
        all_digits(cs.subrange(d0, i), radix),
        digit_value(cs[i], radix) >= 0,
    ensures
        all_digits(cs.subrange(d0, i + 1), radix),
        digits_value(cs.subrange(d0, i + 1), radix) == digits_value(cs.subrange(d0, i), radix)
            * radix + digit_value(cs[i], radix),
{
    let pre = cs.subrange(d0, i);
    let nxt = cs.subrange(d0, i + 1);
    assert(nxt.drop_last() == pre);
    assert(nxt.last() == cs[i]);
    assert forall|t: int| 0 <= t < nxt.len() implies digit_value(#[trigger] nxt[t], radix) >= 0 by {
        if t < pre.len() {
            assert(nxt[t] == pre[t]);
        }
    }
}

proof fn lemma_digits_too_big(cs: Seq<char>, d0: int, i: int, hi: int, radix: u32)
    requires
        0 <= d0 <= i < hi <= cs.len(),
        radix >= 1,
        digits_value(cs.subrange(d0, i + 1), radix) > u64::MAX,
    ensures
        all_digits(cs.subrange(d0, hi), radix) ==> digits_value(cs.subrange(d0, hi), radix)
            > u64::MAX,
{
    let d = cs.subrange(d0, hi);
    if all_digits(d, radix) {
        assert(d.take(i + 1 - d0) == cs.subrange(d0, i + 1));
        lemma_digits_monotone(d, radix, i + 1 - d0);
    }
}

/// `u64::from_str_radix(cs[lo..hi], radix).ok()`.
pub fn parse_uint_range(cs: &Vec<char>, lo: usize, hi: usize, radix: u32) -> (r: Option<u64>)
    requires
        lo <= hi <= cs.len(),
        radix == 10 || radix == 16,
    ensures
        r == parse_uint(cs@.subrange(lo as int, hi as int), radix),
{
    let ghost s = cs@.subrange(lo as int, hi as int);
    let mut i = lo;
    if i < hi && cs[i] == '+' {
        i += 1;
    }
    let d0 = i;
    let ghost d = cs@.subrange(d0 as int, hi as int);
    assert(d == (if s.len() > 0 && s[0] == '+' {
        s.drop_first()
    } else {
        s
    }));
    if d0 == hi {
        assert(d.len() == 0);
        return None;
    }
    let mut v: u64 = 0;
    assert(cs@.subrange(d0 as int, d0 as int) =~= Seq::<char>::empty());
    while i < hi
        invariant
            lo <= d0 <= i <= hi <= cs.len(),
            d == cs@.subrange(d0 as int, hi as int),
            d.len() > 0,
            radix == 10 || radix == 16,
            parse_uint(cs@.subrange(lo as int, hi as int), radix) == (if all_digits(d, radix)
                && digits_value(d, radix) <= u64::MAX {
                Some(digits_value(d, radix) as u64)
            } else {
                None
            }),
            all_digits(cs@.subrange(d0 as int, i as int), radix),
            v == digits_value(cs@.subrange(d0 as int, i as int), radix),
        decreases hi - i,
    {
        match digit_of(cs[i], radix) {
            None => {
                assert(d[i - d0] == cs@[i as int]);
                return None;
            },
            Some(dv) => {
                proof {
                    lemma_digit_step(cs@, d0 as int, i as int, radix);
                }
                let m = v.checked_mul(radix as u64);
                if m.is_none() {
                    proof {
                        lemma_digits_too_big(cs@, d0 as int, i as int, hi as int, radix);
                    }
                    return None;
                }
                let m = m.unwrap();
                let a = m.checked_add(dv);
                if a.is_none() {
                    proof {
                        lemma_digits_too_big(cs@, d0 as int, i as int, hi as int, radix);
                    }
                    return None;
                }
                v = a.unwrap();
            },
        }
        i += 1;
    }
    assert(cs@.subrange(d0 as int, hi as int) == d);
    Some(v)
}

/// Whether `p` occurs in `cs` at `pos`, ending at or before `hi`.
pub fn matches_at(cs: &Vec<char>, pos: usize, hi: usize, p: &Vec<char>) -> (b: bool)
    requires
        pos <= hi <= cs.len(),
    ensures
        b == (pos + p.len() <= hi && cs@.subrange(pos as int, pos + p.len()) == p@),
{
    if p.len() > hi - pos {
        return false;
    }
    let mut i: usize = 0;
    while i < p.len()
        invariant
            pos + p.len() <= hi <= cs.len(),
            i <= p.len(),
            forall|t: int| 0 <= t < i ==> cs@[pos + t] == p@[t],
        decreases p.len() - i,
    {
        if cs[pos + i] != p[i] {
            assert(cs@.subrange(pos as int, pos + p.len())[i as int] != p@[i as int]);
            return false;
        }
        i += 1;
    }
    assert(cs@.subrange(pos as int, pos + p.len()) =~= p@);
    true
}

/// Whether `cs[lo..hi]` equals `lit`.
pub fn eq_lit(cs: &Vec<char>, lo: usize, hi: usize, lit: &str) -> (b: bool)
    requires
        lo <= hi <= cs.len(),
    ensures
        b == (cs@.subrange(lo as int, hi as int) == lit@),
{
    let p = to_chars(lit);
    if p.len() != hi - lo {
        return false;
    }
    matches_at(cs, lo, hi, &p)
}

/// Whether `cs[lo..hi]` starts with `lit`.
pub fn starts_with_lit(cs: &Vec<char>, lo: usize, hi: usize, lit: &str) -> (b: bool)
    requires
        lo <= hi <= cs.len(),
    ensures
        b == has_prefix(cs@.subrange(lo as int, hi as int), lit@),
{
    let p = to_chars(lit);
    let b = matches_at(cs, lo, hi, &p);
    proof {
        if p.len() <= hi - lo {
            assert(cs@.subrange(lo as int, hi as int).take(p.len() as int) == cs@.subrange(
                lo as int,
                lo + p.len(),
            ));
        }
    }
    b
}

/// Whether `lit` occurs in `cs[lo..hi]`.
pub fn contains_lit(cs: &Vec<char>, lo: usize, hi: usize, lit: &str) -> (b: bool)
    requires
        lo <= hi <= cs.len(),
    ensures
        b == has_infix(cs@.subrange(lo as int, hi as int), lit@),
{
    let p = to_chars(lit);
    let ghost s = cs@.subrange(lo as int, hi as int);
    let mut pos = lo;
    while pos < hi
        invariant
            lo <= pos <= hi <= cs.len(),
            s == cs@.subrange(lo as int, hi as int),
            p@ == lit@,
            forall|i: int|
                0 <= i < pos - lo && i + p.len() <= s.len() ==> #[trigger] s.subrange(
                    i,
                    i + p.len(),
                ) != p@,
        decreases hi - pos,
    {
        if matches_at(cs, pos, hi, &p) {
            assert(s.subrange(pos - lo, pos - lo + p.len()) == cs@.subrange(
                pos as int,
                pos + p.len(),
            ));
            return true;
        }
        assert(pos + p.len() <= hi ==> s.subrange(pos - lo, pos - lo + p.len()) == cs@.subrange(
            pos as int,
            pos + p.len(),
        ));
        pos += 1;
    }
    if p.len() == 0 {
        assert(s.subrange(0, (0 + lit@.len()) as int) =~= lit@);
        return true;
    }
    false
}

/// `lo` plus the length of `cs[lo..hi]` once trailing `c` chars are dropped.
pub fn trim_end_char_range(cs: &Vec<char>, lo: usize, hi: usize, c: char) -> (b: usize)
    requires
        lo <= hi <= cs.len(),
    ensures
        lo <= b <= hi,
        cs@.subrange(lo as int, b as int) == trim_end_char(cs@.subrange(lo as int, hi as int), c),
{
    let mut b = hi;
    while b > lo && cs[b - 1] == c
        invariant
            lo <= b <= hi <= cs.len(),
            trim_end_char(cs@.subrange(lo as int, hi as int), c) == trim_end_char(
                cs@.subrange(lo as int, b as int),
                c,
            ),
        decreases b - lo,
    {
        assert(cs@.subrange(lo as int, b as int).drop_last() == cs@.subrange(lo as int, b - 1));
        b -= 1;
    }
    b
}

/// Number of UTF-8 bytes of `c`.
pub fn char_width_of(c: char) -> (w: usize)
    ensures
        w == char_width(c),
{
    let u = c as u32;
    if u < 0x80 {
        1
    } else if u < 0x800 {
        2
    } else if u < 0x10000 {
        3
    } else {
        4
    }
}

proof fn lemma_byte_len_prefix(s: Seq<char>, k: int)
    requires
        0 <= k <= s.len(),
    ensures
        byte_len(s.take(k)) <= byte_len(s),
    decreases s.len(),
{
    if k < s.len() {
        assert(s.drop_last().take(k) == s.take(k));
        lemma_byte_len_prefix(s.drop_last(), k);
    } else {
        assert(s.take(k) == s);
    }
}

/// Whether `cs[lo..hi]` takes at least `n` bytes in UTF-8.
pub fn byte_len_at_least(cs: &Vec<char>, lo: usize, hi: usize, n: usize) -> (b: bool)
    requires
        lo <= hi <= cs.len(),
    ensures
        b == (byte_len(cs@.subrange(lo as int, hi as int)) >= n),
{
    if n == 0 {
        return true;
    }
    let mut acc: usize = 0;
    let mut i = lo;
    assert(cs@.subrange(lo as int, lo as int) =~= Seq::<char>::empty());
    while i < hi
        invariant
            lo <= i <= hi <= cs.len(),
            acc == byte_len(cs@.subrange(lo as int, i as int)),
            acc < n,
        decreases hi - i,
    {
        assert(cs@.subrange(lo as int, i + 1).drop_last() == cs@.subrange(lo as int, i as int));
        let w = char_width_of(cs[i]);
        i += 1;
        if w >= n - acc {
            proof {
                assert(cs@.subrange(lo as int, hi as int).take(i - lo) == cs@.subrange(lo as int, i as int));
                lemma_byte_len_prefix(cs@.subrange(lo as int, hi as int), i - lo);
            }
            return true;
        }
        acc = acc + w;
    }
    false
}

/// Appends `cs[lo..hi]` to `s`.
pub fn append_range(s: &mut String, cs: &Vec<char>, lo: usize, hi: usize)
    requires
        lo <= hi <= cs.len(),
    ensures
        final(s)@ == old(s)@ + cs@.subrange(lo as int, hi as int),
{
    let ghost s0 = s@;
    let mut i = lo;
    while i < hi
        invariant
            lo <= i <= hi <= cs.len(),
            s@ == s0 + cs@.subrange(lo as int, i as int),
        decreases hi - i,
    {
        push_char(s, cs[i]);
        assert(cs@.subrange(lo as int, i + 1) == cs@.subrange(lo as int, i as int).push(cs@[i as int]));
        assert(s0 + cs@.subrange(lo as int, i + 1) == (s0 + cs@.subrange(lo as int, i as int)).push(cs@[i as int]));
        i += 1;
    }
}

/// The char of decimal digit `d`.
pub open spec fn digit_char(d: nat) -> char {
    ((d + 0x30) as u32) as char
}

/// The decimal digits of `n`, as `format!("{}", n)` writes them.
pub open spec fn decimal(n: nat) -> Seq<char>
    decreases n,
{
    if n < 10 {
        seq![digit_char(n)]
    } else {
        decimal(n / 10).push(digit_char(n % 10))
    }
}

/// Appends the decimal digits of `n` to `s`.
pub fn push_decimal(s: &mut String, n: u32)
    ensures
        final(s)@ == old(s)@ + decimal(n as nat),
    decreases n,
{
    if n >= 10 {
        push_decimal(s, n / 10);
    }
    let d = (n % 10) as u8;
    let c = (d + 0x30) as char;
    assert(c == digit_char((n % 10) as nat));
    let ghost before = s@;
    push_char(s, c);
    proof {
        if n >= 10 {
            assert(old(s)@ + decimal(n as nat) == before.push(c));
        } else {
            assert(old(s)@ + decimal(n as nat) =~= before.push(c));
        }
    }
}

/// The words of `ws` joined with single spaces (`[&str]::join(" ")`).
pub open spec fn join_space(ws: Seq<Seq<char>>) -> Seq<char>
    decreases ws.len(),
{
    if ws.len() == 0 {
        seq![]
    } else if ws.len() == 1 {
        ws[0]
    } else {
        join_space(ws.drop_last()) + seq![' '] + ws.last()
    }
}

/// The decimal digits of `n` are digits, not white space, and read back as
/// `n` in base 10.
pub proof fn lemma_decimal(n: nat)
    ensures
        decimal(n).len() > 0,
        all_digits(decimal(n), 10),
        digits_value(decimal(n), 10) == n,
        forall|i: int| 0 <= i < decimal(n).len() ==> !is_ws(#[trigger] decimal(n)[i]) && decimal(n)[i] != '+',
    decreases n,
{
    if n < 10 {
        let d = decimal(n);
        assert(d.drop_last() == Seq::<char>::empty());
        assert(d.last() == digit_char(n));
        assert(digit_value(digit_char(n), 10) == n);
        assert(digits_value(Seq::<char>::empty(), 10) == 0);
        assert(digits_value(d, 10) == digits_value(d.drop_last(), 10) * 10 + digit_value(d.last(), 10));
    } else {
        lemma_decimal(n / 10);
        let d = decimal(n);
        assert(d.drop_last() == decimal(n / 10));
        assert(d.last() == digit_char(n % 10));
        assert(digit_value(digit_char(n % 10), 10) == n % 10);
        assert(digits_value(d, 10) == digits_value(d.drop_last(), 10) * 10 + digit_value(d.last(), 10));
        assert((n / 10) * 10 + n % 10 == n) by (nonlinear_arith);
        assert forall|i: int| 0 <= i < d.len() implies digit_value(#[trigger] d[i], 10) >= 0 by {
            if i < d.len() - 1 {
                assert(d[i] == decimal(n / 10)[i]);
            }
        }
        assert forall|i: int| 0 <= i < d.len() implies !is_ws(#[trigger] d[i]) && d[i] != '+' by {
            if i < d.len() - 1 {
                assert(d[i] == decimal(n / 10)[i]);
            }
        }
    }
}

/// Reading the decimal digits of `n` gives `n` back.
pub proof fn lemma_parse_dec_decimal(n: u64)
    ensures
        parse_dec(decimal(n as nat)) == Some(n),
{
    lemma_decimal(n as nat);
}

/// Whether no char of `s` is white space.
pub open spec fn no_ws(s: Seq<char>) -> bool {
    forall|i: int| 0 <= i < s.len() ==> !is_ws(#[trigger] s[i])
}

proof fn lemma_words_single(b: Seq<char>)
    requires
        b.len() > 0,
        no_ws(b),
    ensures
        words(b) == seq![b],
{
    lemma_first_ws_bounds(b);
    let k = first_ws(b);
    if k < b.len() {
        assert(is_ws(b[k]));
    }
    assert(b.take(k) == b);
    assert(b.skip(k) == Seq::<char>::empty());
    assert(words(Seq::<char>::empty()) == Seq::<Seq<char>>::empty());
}

proof fn lemma_first_ws_after(a: Seq<char>, w: char, b: Seq<char>)
    requires
        no_ws(a),
        is_ws(w),
    ensures
        first_ws(a + seq![w] + b) == a.len(),
    decreases a.len(),
{
    if a.len() > 0 {
        assert((a + seq![w] + b).drop_first() == a.drop_first() + seq![w] + b);
        assert((a + seq![w] + b)[0] == a[0]);
        assert(no_ws(a.drop_first())) by {
            assert forall|i: int| 0 <= i < a.drop_first().len() implies !is_ws(#[trigger] a.drop_first()[i]) by {
                assert(a.drop_first()[i] == a[i + 1]);
            }
        }
        lemma_first_ws_after(a.drop_first(), w, b);
    } else {
        assert((a + seq![w] + b)[0] == w);
    }
}

/// The words of `a`, a white-space char, then `rest`: `a`, then the words of
/// `rest`.
pub proof fn lemma_words_first(a: Seq<char>, w: char, rest: Seq<char>)
    requires
        a.len() > 0,
        no_ws(a),
        is_ws(w),
    ensures
        words(a + seq![w] + rest) == seq![a] + words(rest),
{
    let s = a + seq![w] + rest;
    assert(s[0] == a[0]);
    lemma_first_ws_after(a, w, rest);
    assert(s.take(a.len() as int) == a);
    assert(s.skip(a.len() as int) == seq![w] + rest);
    assert((seq![w] + rest)[0] == w);
    assert((seq![w] + rest).drop_first() == rest);
    assert(words(seq![w] + rest) == words(rest));
    assert(words(s) == seq![s.take(first_ws(s))] + words(s.skip(first_ws(s))));
}

/// The words of `a`, a white-space char, then `b`, where `a` and `b` are
/// words: `a` and `b`.
pub proof fn lemma_words_two(a: Seq<char>, w: char, b: Seq<char>)
    requires
        a.len() > 0,
        b.len() > 0,
        no_ws(a),
        no_ws(b),
        is_ws(w),
    ensures
        words(a + seq![w] + b) == seq![a, b],
{
    lemma_words_first(a, w, b);
    lemma_words_single(b);
}

/// A text that starts with a char other than white space keeps something
/// when trimmed.
pub proof fn lemma_trim_nonempty(s: Seq<char>)
    requires
        s.len() > 0,
        !is_ws(s[0]),
    ensures
        trim(s).len() > 0,
{
    assert(trim_start(s) == s);
    lemma_trim_end_keeps_first(s);
}

proof fn lemma_trim_end_keeps_first(s: Seq<char>)
    requires
        s.len() > 0,
        !is_ws(s[0]),
    ensures
        trim_end(s).len() > 0,
    decreases s.len(),
{
    if s.len() > 1 && is_ws(s.last()) {
        assert(s.drop_last()[0] == s[0]);
        lemma_trim_end_keeps_first(s.drop_last());
    }
}

} // verus!
