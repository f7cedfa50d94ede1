//! Text as sequences of characters: lines, fields and decimal numbers.
use vstd::prelude::*;

verus! {

/// The pieces of `s` between the occurrences of `sep`: one more piece than
/// there are separators.
pub open spec fn split_on(s: Seq<char>, sep: char) -> Seq<Seq<char>>
    decreases s.len(),
{
    if s.len() == 0 {
        seq![Seq::empty()]
    } else {
        let r = split_on(s.drop_last(), sep);
        if s.last() == sep {
            r.push(Seq::empty())
        } else {
            r.update(r.len() - 1, r.last().push(s.last()))
        }
    }
}

/// The pieces of a split are never none.
pub proof fn lemma_split_nonempty(s: Seq<char>, sep: char)
    ensures
        split_on(s, sep).len() >= 1,
    decreases s.len(),
{
    if s.len() > 0 {
        lemma_split_nonempty(s.drop_last(), sep);
    }
}

/// The separators and the first piece fit in `s`.
pub proof fn lemma_split_len(s: Seq<char>, sep: char)
    ensures
        split_on(s, sep).len() >= 1,
        split_on(s, sep).len() - 1 + split_on(s, sep)[0].len() <= s.len(),
    decreases s.len(),
{
    if s.len() > 0 {
        lemma_split_len(s.drop_last(), sep);
    }
}

/// A line without the `'\r'` that ended it before its `'\n'`.
pub open spec fn strip_cr(l: Seq<char>) -> Seq<char> {
    if l.len() > 0 && l.last() == '\r' { l.drop_last() } else { l }
}

/// The lines of `s`: split at `'\n'`, where a line that a `'\n'` ends loses a
/// `'\r'` before it, and nothing follows a final `'\n'`.
pub open spec fn lines_of(s: Seq<char>) -> Seq<Seq<char>> {
    let p = split_on(s, '\n');
    let head = p.drop_last().map_values(|l: Seq<char>| strip_cr(l));
    if p.last().len() == 0 { head } else { head.push(p.last()) }
}

/// The value of a string of decimal digits.
pub open spec fn digits_value(s: Seq<char>) -> nat
    decreases s.len(),
{
    if s.len() == 0 {
        0
    } else {
        digits_value(s.drop_last()) * 10 + (s.last() as int - '0' as int) as nat
    }
}

/// Every character is a decimal digit.
pub open spec fn all_digits(s: Seq<char>) -> bool {
    forall|i: int| 0 <= i < s.len() ==> '0' <= #[trigger] s[i] <= '9'
}

/// The number that `s` writes: an optional `'+'` and at least one decimal
/// digit, and no other character.
pub open spec fn number_of(s: Seq<char>) -> Option<nat> {
    let d = if s.len() > 0 && s[0] == '+' { s.drop_first() } else { s };
    if d.len() > 0 && all_digits(d) { Some(digits_value(d)) } else { None }
}

/// The `usize` that `s` writes, if it writes a number that fits.
pub open spec fn usize_of(s: Seq<char>) -> Option<usize> {
    match number_of(s) {
        Some(v) => if v <= usize::MAX { Some(v as usize) } else { None },
        None => None,
    }
}

/// The characters of `s`, in order.
pub fn chars_of(s: &str) -> (r: Vec<char>)
    ensures
        r@ == s@,
{
    let mut out: Vec<char> = Vec::new();
    for c in it: s.chars()
        invariant
            it.seq() == s@,
            out@ == s@.subrange(0, it.index() as int),
    {
        out.push(c);
    }
    assert(out@ =~= s@);
    out
}

/// The pieces of `s` between the occurrences of `sep`, as [`split_on`].
pub fn split_chars(s: &[char], sep: char) -> (r: Vec<Vec<char>>)
    ensures
        r@.len() == split_on(s@, sep).len(),
        forall|k: int| 0 <= k < r@.len() ==> (#[trigger] r@[k])@ == split_on(s@, sep)[k],
{
    let mut pieces: Vec<Vec<char>> = Vec::new();
    let mut cur: Vec<char> = Vec::new();
    let mut i: usize = 0;
    while i < s.len()
        invariant
            i <= s@.len(),
            pieces@.len() + 1 == split_on(s@.subrange(0, i as int), sep).len(),
            forall|k: int| 0 <= k < pieces@.len() ==> (#[trigger] pieces@[k])@ == split_on(s@.subrange(0, i as int), sep)[k],
            cur@ == split_on(s@.subrange(0, i as int), sep).last(),
        decreases s@.len() - i,
    {
        let ghost before = s@.subrange(0, i as int);
        let c = s[i];
        assert(s@.subrange(0, i as int + 1).drop_last() =~= before);
        assert(s@.subrange(0, i as int + 1).last() == c);
        proof {
            lemma_split_nonempty(before, sep);
        }
        if c == sep {
            let mut done: Vec<char> = Vec::new();
            std::mem::swap(&mut cur, &mut done);
            pieces.push(done);
        } else {
            cur.push(c);
        }
        i = i + 1;
    }
    assert(s@.subrange(0, i as int) =~= s@);
    pieces.push(cur);
    pieces
}

/// The `usize` that `t` writes, as [`usize_of`]: an optional `'+'` and
/// decimal digits whose value fits.
pub fn parse_usize(t: &[char]) -> (r: Option<usize>)
    ensures
        r == usize_of(t@),
{
    let len = t.len();
    let start: usize = if len > 0 && t[0] == '+' { 1 } else { 0 };
    let ghost d = if t@.len() > 0 && t@[0] == '+' { t@.drop_first() } else { t@ };
    assert(d =~= t@.subrange(start as int, len as int));
    if start == len {
        return None;
    }
    let mut value: usize = 0;
    let mut too_big = false;
    let mut i: usize = start;
    while i < len
        invariant
            len == t@.len(),
            start <= i <= len,
            d == t@.subrange(start as int, len as int),
            d == (if t@.len() > 0 && t@[0] == '+' { t@.drop_first() } else { t@ }),
            all_digits(t@.subrange(start as int, i as int)),
            !too_big ==> value == digits_value(t@.subrange(start as int, i as int)),
            too_big ==> digits_value(t@.subrange(start as int, i as int)) > usize::MAX,
        decreases len - i,
    {
        let c = t[i];
        if !('0' <= c && c <= '9') {
            assert(d[i - start] == c);
            assert(!all_digits(d));
            return None;
        }
        let ghost p = t@.subrange(start as int, i as int);
        assert(t@.subrange(start as int, i as int + 1) =~= p.push(c));
        assert(p.push(c).drop_last() =~= p);
        let digit = (c as u32 - '0' as u32) as usize;
        assert(digit as int == c as int - '0' as int);
        if !too_big {
            if value > (usize::MAX - digit) / 10 {
                assert(value * 10 + digit > usize::MAX) by (nonlinear_arith)
                    requires
                        value > (usize::MAX - digit) / 10,
                        digit <= 9,
                ;
                too_big = true;
            } else {
                assert(value * 10 + digit <= usize::MAX) by (nonlinear_arith)
                    requires
                        value <= (usize::MAX - digit) / 10,
                        digit <= 9,
                ;
                value = value * 10 + digit;
            }
        }
        i = i + 1;
    }
    assert(t@.subrange(start as int, i as int) =~= d);
    if too_big {
        None
    } else {
        Some(value)
    }
}

/// Relies on `String::push`: the string gains `c` at its end.
#[verifier::external_body]
fn push_char(s: &mut String, c: char)
    ensures
        final(s)@ == old(s)@.push(c),
{
    s.push(c)
}

/// The string of the characters `cs`, in order.
pub fn string_of(cs: &[char]) -> (r: String)
    ensures
        r@ == cs@,
{
    let mut out = String::new();
    let mut i: usize = 0;
    while i < cs.len()
        invariant
            i <= cs@.len(),
            out@ == cs@.subrange(0, i as int),
        decreases cs@.len() - i,
    {
        push_char(&mut out, cs[i]);
        assert(cs@.subrange(0, i as int + 1) =~= cs@.subrange(0, i as int).push(cs@[i as int]));
        i = i + 1;
    }
    assert(cs@.subrange(0, i as int) =~= cs@);
    out
}

/// The lines of `s`, as [`lines_of`].
pub fn lines(s: &[char]) -> (r: Vec<Vec<char>>)
    ensures
        r@.len() == lines_of(s@).len(),
        forall|k: int| 0 <= k < r@.len() ==> (#[trigger] r@[k])@ == lines_of(s@)[k],
{
    let mut pieces = split_chars(s, '\n');
    let ghost p = split_on(s@, '\n');
    proof {
        lemma_split_nonempty(s@, '\n');
    }
    let last = pieces.pop().unwrap();
    assert(last@ == p.last());
    let mut out: Vec<Vec<char>> = Vec::new();
    let mut k: usize = 0;
    let m = pieces.len();
    while k < m
        invariant
            m == pieces@.len(),
            m + 1 == p.len(),
            forall|q: int| 0 <= q < m ==> (#[trigger] pieces@[q])@ == p[q],
            k <= m,
            out@.len() == k,
            forall|q: int| 0 <= q < k ==> (#[trigger] out@[q])@ == strip_cr(p[q]),
        decreases m - k,
    {
        let piece = &pieces[k];
        let plen = piece.len();
        let keep = if plen > 0 && piece[plen - 1] == '\r' { plen - 1 } else { plen };
        let mut line: Vec<char> = Vec::new();
        let mut j: usize = 0;
        while j < keep
            invariant
                keep <= piece@.len(),
                j <= keep,
                line@ == piece@.subrange(0, j as int),
            decreases keep - j,
        {
            line.push(piece[j]);
            assert(piece@.subrange(0, j as int + 1) =~= piece@.subrange(0, j as int).push(piece@[j as int]));
            j = j + 1;
        }
        assert(line@ =~= strip_cr(p[k as int]));
        out.push(line);
        k = k + 1;
    }
    if last.len() > 0 {
        out.push(last);
    }
    out
}

} // verus!
