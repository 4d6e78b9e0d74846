//! Text primitives over sequences of characters: searching, replacing,
//! splitting and whitespace removal, each with its mathematical model.

use vstd::prelude::*;

verus! {

/// `needle` stands in `hay` at index `at`.
pub open spec fn occurs_at(hay: Seq<char>, needle: Seq<char>, at: int) -> bool {
    &&& 0 <= at
    &&& at + needle.len() <= hay.len()
    &&& hay.subrange(at, at + needle.len()) == needle
}

/// `needle` stands somewhere in `hay`.
pub open spec fn has_substring(hay: Seq<char>, needle: Seq<char>) -> bool {
    exists|at: int| occurs_at(hay, needle, at)
}

/// `text` with every occurrence of `pattern` replaced by `value`, scanning
/// from the left and never looking again at what was written. An empty
/// pattern occurs nowhere.
pub open spec fn replaced(text: Seq<char>, pattern: Seq<char>, value: Seq<char>) -> Seq<char>
    decreases text.len(),
{
    if pattern.len() == 0 || text.len() == 0 {
        text
    } else if occurs_at(text, pattern, 0) {
        value + replaced(text.skip(pattern.len() as int), pattern, value)
    } else {
        seq![text[0]] + replaced(text.skip(1), pattern, value)
    }
}

/// Number of characters of `text` before its first `sep`, or its length.
pub open spec fn piece_len(text: Seq<char>, sep: char) -> nat
    decreases text.len(),
{
    if text.len() == 0 || text[0] == sep {
        0
    } else {
        1 + piece_len(text.skip(1), sep)
    }
}

/// The pieces of `text` between occurrences of `sep`; never empty, and
/// `n` separators give `n + 1` pieces.
pub open spec fn split(text: Seq<char>, sep: char) -> Seq<Seq<char>>
    decreases text.len(),
{
    let n = piece_len(text, sep) as int;
    if n >= text.len() {
        seq![text]
    } else {
        seq![text.take(n)] + split(text.skip(n + 1), sep)
    }
}

/// The lines of `text`.
pub open spec fn lines(text: Seq<char>) -> Seq<Seq<char>> {
    split(text, '\n')
}

/// `pieces` written one after another with `sep` between neighbours.
pub open spec fn joined(pieces: Seq<Seq<char>>, sep: char) -> Seq<char>
    decreases pieces.len(),
{
    if pieces.len() == 0 {
        Seq::empty()
    } else if pieces.len() == 1 {
        pieces[0]
    } else {
        joined(pieces.drop_last(), sep) + seq![sep] + pieces.last()
    }
}

/// The characters that Unicode lists as `White_Space`.
pub open spec fn is_space(c: char) -> bool {
    let n = c as u32;
    ||| 0x09 <= n <= 0x0d
    ||| n == 0x20
    ||| n == 0x85
    ||| n == 0xa0
    ||| n == 0x1680
    ||| 0x2000 <= n <= 0x200a
    ||| n == 0x2028
    ||| n == 0x2029
    ||| n == 0x202f
    ||| n == 0x205f
    ||| n == 0x3000
}

/// `text` without its whitespace characters.
pub open spec fn without_whitespace(text: Seq<char>) -> Seq<char>
    decreases text.len(),
{
    if text.len() == 0 {
        text
    } else if is_space(text[0]) {
        without_whitespace(text.skip(1))
    } else {
        seq![text[0]] + without_whitespace(text.skip(1))
    }
}

/// `a` comes strictly before `b` in the order of `str`: character by
/// character, a proper prefix first.
pub open spec fn text_lt(a: Seq<char>, b: Seq<char>) -> bool
    decreases a.len(),
{
    if b.len() == 0 {
        false
    } else if a.len() == 0 {
        true
    } else if a[0] != b[0] {
        (a[0] as u32) < (b[0] as u32)
    } else {
        text_lt(a.skip(1), b.skip(1))
    }
}

/// `c` in ASCII lower case.
pub open spec fn lower_char(c: char) -> char {
    if 'A' <= c && c <= 'Z' {
        ((c as u8) + 32) as char
    } else {
        c
    }
}

/// `text` in ASCII lower case: the letters `A` to `Z` become `a` to `z`,
/// and nothing else changes.
pub open spec fn lowered(text: Seq<char>) -> Seq<char> {
    Seq::new(text.len(), |i: int| lower_char(text[i]))
}

/// An occurrence at `at` is an occurrence at the start of what is left
/// when the first `at` characters are gone.
pub proof fn lemma_occurs_shift(text: Seq<char>, pattern: Seq<char>, at: int)
    requires
        0 <= at <= text.len(),
    ensures
        occurs_at(text, pattern, at) == occurs_at(text.skip(at), pattern, 0),
{
    if at + pattern.len() <= text.len() {
        assert(text.subrange(at, at + pattern.len()) == text.skip(at).subrange(
            0,
            pattern.len() as int,
        ));
    }
}

/// What is appended to a text stands in it.
pub proof fn lemma_suffix_is_substring(head: Seq<char>, tail: Seq<char>)
    ensures
        has_substring(head + tail, tail),
{
    let whole = head + tail;
    assert(whole.subrange(head.len() as int, (head.len() + tail.len()) as int) == tail);
    assert(occurs_at(whole, tail, head.len() as int));
}

/// A piece holds no separator and ends at one or at the end of the text.
pub proof fn lemma_piece_len(text: Seq<char>, sep: char, n: int)
    requires
        0 <= n <= text.len(),
        forall|k: int| 0 <= k < n ==> text[k] != sep,
        n == text.len() || text[n] == sep,
    ensures
        piece_len(text, sep) == n,
    decreases n,
{
    if n > 0 {
        lemma_piece_len(text.skip(1), sep, n - 1);
    }
}

/// `String::push`: the string is as before, with `c` appended.
#[verifier::external_body]
fn push_char(s: &mut String, c: char)
    ensures
        final(s)@ == old(s)@.push(c),
{
    s.push(c)
}

/// Collects the characters of `s`.
pub fn to_chars(s: &str) -> (chars: Vec<char>)
    ensures
        chars@ == s@,
{
    let mut chars: Vec<char> = Vec::new();
    for c in it: s.chars()
        invariant
            it.seq() == s@,
            chars@ == it.seq().take(it.index() as int),
    {
        chars.push(c);
    }
    chars
}

/// The string that holds `chars`.
pub fn from_chars(chars: &Vec<char>) -> (s: String)
    ensures
        s@ == chars@,
{
    let mut s = String::new();
    let mut i: usize = 0;
    while i < chars.len()
        invariant
            i <= chars.len(),
            s@ == chars@.take(i as int),
        decreases chars.len() - i,
    {
        push_char(&mut s, chars[i]);
        i += 1;
        assert(chars@.take(i as int) == chars@.take(i - 1).push(chars@[i - 1]));
    }
    assert(chars@.take(chars@.len() as int) == chars@);
    s
}

/// Appends `src[from..to]` to `out`.
pub fn push_range(out: &mut Vec<char>, src: &Vec<char>, from: usize, to: usize)
    requires
        from <= to <= src.len(),
    ensures
        final(out)@ == old(out)@ + src@.subrange(from as int, to as int),
{
    let mut i: usize = from;
    while i < to
        invariant
            from <= i <= to <= src.len(),
            out@ == old(out)@ + src@.subrange(from as int, i as int),
        decreases to - i,
    {
        out.push(src[i]);
        i += 1;
    }
}

/// Whether `needle` stands in `hay` at index `at`.
pub fn matches_at(hay: &Vec<char>, needle: &Vec<char>, at: usize) -> (hit: bool)
    ensures
        hit == occurs_at(hay@, needle@, at as int),
{
    if needle.len() > hay.len() || at > hay.len() - needle.len() {
        return false;
    }
    let mut k: usize = 0;
    while k < needle.len()
        invariant
            k <= needle.len(),
            at + needle.len() <= hay.len(),
            forall|j: int| 0 <= j < k ==> hay@[at + j] == needle@[j],
        decreases needle.len() - k,
    {
        if hay[at + k] != needle[k] {
            proof {
                let part = hay@.subrange(at as int, at + needle.len());
                assert(part[k as int] == hay@[at + k]);
            }
            return false;
        }
        k += 1;
    }
    assert(hay@.subrange(at as int, at + needle.len()) =~= needle@);
    true
}

/// Whether `needle` is a substring of `hay`.
pub fn contains_chars(h: &Vec<char>, n: &Vec<char>) -> (found: bool)
    ensures
        found == has_substring(h@, n@),
{
    if n.len() > h.len() {
        return false;
    }
    let last: usize = h.len() - n.len();
    let mut at: usize = 0;
    loop
        invariant
            at <= last,
            last + n.len() == h.len(),
            forall|j: int| 0 <= j < at ==> !occurs_at(h@, n@, j),
        ensures
            forall|j: int| !occurs_at(h@, n@, j),
        decreases last - at,
    {
        if matches_at(h, n, at) {
            return true;
        }
        if at == last {
            break ;
        }
        at += 1;
    }
    false
}

/// Whether `needle` is a substring of `hay`.
pub fn contains(hay: &str, needle: &str) -> (found: bool)
    ensures
        found == has_substring(hay@, needle@),
{
    let h = to_chars(hay);
    let n = to_chars(needle);
    contains_chars(&h, &n)
}

/// `t` with every occurrence of `p` replaced by `v`.
pub fn replace_chars(t: &Vec<char>, p: &Vec<char>, v: &Vec<char>) -> (out: Vec<char>)
    ensures
        out@ == replaced(t@, p@, v@),
{
    let mut out: Vec<char> = Vec::new();
    let mut i: usize = 0;
    if p.len() == 0 {
        push_range(&mut out, t, 0, t.len());
        assert(t@.subrange(0, t@.len() as int) == t@);
        return out;
    }
    assert(Seq::<char>::empty() + replaced(t@.skip(0), p@, v@) == replaced(t@, p@, v@)) by {
        assert(t@.skip(0) == t@);
    }
    while i < t.len()
        invariant
            i <= t.len(),
            p.len() > 0,
            out@ + replaced(t@.skip(i as int), p@, v@) == replaced(t@, p@, v@),
        decreases t.len() - i,
    {
        let ghost rest = t@.skip(i as int);
        let ghost before = out@;
        if matches_at(t, p, i) {
            proof {
                assert(rest.subrange(0, p@.len() as int) == t@.subrange(
                    i as int,
                    i + p@.len(),
                ));
                assert(occurs_at(rest, p@, 0));
                assert(rest.skip(p@.len() as int) == t@.skip(i + p@.len()));
            }
            push_range(&mut out, v, 0, v.len());
            i += p.len();
            proof {
                assert(v@.subrange(0, v@.len() as int) == v@);
                assert(out@ + replaced(t@.skip(i as int), p@, v@) == before + (v@ + replaced(
                    t@.skip(i as int),
                    p@,
                    v@,
                )));
            }
        } else {
            proof {
                if occurs_at(rest, p@, 0) {
                    assert(rest.subrange(0, p@.len() as int) == t@.subrange(
                        i as int,
                        i + p@.len(),
                    ));
                }
                assert(rest.skip(1) == t@.skip(i + 1));
            }
            out.push(t[i]);
            i += 1;
            proof {
                assert(out@ + replaced(t@.skip(i as int), p@, v@) == before + (seq![rest[0]]
                    + replaced(t@.skip(i as int), p@, v@)));
            }
        }
    }
    assert(out@ + Seq::<char>::empty() == out@);
    out
}

/// `text` with every occurrence of `pattern` replaced by `value`.
pub fn replace(text: &str, pattern: &str, value: &str) -> (out: String)
    ensures
        out@ == replaced(text@, pattern@, value@),
{
    let t = to_chars(text);
    let p = to_chars(pattern);
    let v = to_chars(value);
    let out = replace_chars(&t, &p, &v);
    from_chars(&out)
}

/// The pieces of `t` between occurrences of `sep`.
pub fn split_chars(t: &Vec<char>, sep: char) -> (pieces: Vec<Vec<char>>)
    ensures
        pieces@.len() == split(t@, sep).len(),
        forall|k: int| 0 <= k < pieces@.len() ==> (#[trigger] pieces@[k])@ == split(t@, sep)[k],
{
    let mut pieces: Vec<Vec<char>> = Vec::new();
    let ghost mut done: Seq<Seq<char>> = Seq::empty();
    let mut start: usize = 0;
    assert(done + split(t@.skip(0), sep) == split(t@, sep)) by {
        assert(t@.skip(0) == t@);
    }
    loop
        invariant_except_break
            done + split(t@.skip(start as int), sep) == split(t@, sep),
        invariant
            start <= t.len(),
            done.len() == pieces@.len(),
            forall|k: int| 0 <= k < pieces@.len() ==> (#[trigger] pieces@[k])@ == done[k],
        ensures
            done.len() == pieces@.len(),
            forall|k: int| 0 <= k < pieces@.len() ==> (#[trigger] pieces@[k])@ == done[k],
            done == split(t@, sep),
        decreases t.len() - start,
    {
        let ghost rest = t@.skip(start as int);
        let mut end: usize = start;
        while end < t.len() && t[end] != sep
            invariant
                start <= end <= t.len(),
                forall|k: int| start <= k < end ==> t@[k] != sep,
            decreases t.len() - end,
        {
            end += 1;
        }
        proof {
            lemma_piece_len(rest, sep, end - start);
            assert(rest.take(end - start) == t@.subrange(start as int, end as int));
        }
        let mut piece: Vec<char> = Vec::new();
        push_range(&mut piece, t, start, end);
        assert(piece@ == t@.subrange(start as int, end as int));
        let ghost before = done;
        pieces.push(piece);
        proof {
            done = done.push(piece@);
        }
        if end == t.len() {
            proof {
                assert(rest.take(end - start) == rest);
                assert(before + seq![rest] == done);
            }
            break ;
        }
        proof {
            assert(rest.skip(end - start + 1) == t@.skip(end + 1));
            assert(before + (seq![rest.take(end - start)] + split(t@.skip(end + 1), sep))
                == done + split(t@.skip(end + 1), sep));
        }
        start = end + 1;
    }
    pieces
}

/// Whether Unicode lists `c` as `White_Space`.
pub fn is_whitespace(c: char) -> (space: bool)
    ensures
        space == is_space(c),
{
    let n: u32 = c as u32;
    (0x09 <= n && n <= 0x0d) || n == 0x20 || n == 0x85 || n == 0xa0 || n == 0x1680 || (0x2000 <= n
        && n <= 0x200a) || n == 0x2028 || n == 0x2029 || n == 0x202f || n == 0x205f || n == 0x3000
}

/// `t` without its whitespace characters.
pub fn strip_whitespace(t: &Vec<char>) -> (out: Vec<char>)
    ensures
        out@ == without_whitespace(t@),
{
    let mut out: Vec<char> = Vec::new();
    let mut i: usize = 0;
    assert(out@ + without_whitespace(t@.skip(0)) == without_whitespace(t@)) by {
        assert(t@.skip(0) == t@);
    }
    while i < t.len()
        invariant
            i <= t.len(),
            out@ + without_whitespace(t@.skip(i as int)) == without_whitespace(t@),
        decreases t.len() - i,
    {
        let ghost rest = t@.skip(i as int);
        let ghost before = out@;
        proof {
            assert(rest.skip(1) == t@.skip(i + 1));
        }
        if !is_whitespace(t[i]) {
            out.push(t[i]);
            proof {
                assert(out@ + without_whitespace(t@.skip(i + 1)) == before + (seq![rest[0]]
                    + without_whitespace(t@.skip(i + 1))));
            }
        }
        i += 1;
    }
    assert(out@ + Seq::<char>::empty() == out@);
    out
}

/// Removes every whitespace character from `s`.
pub fn remove_whitespace(s: &mut String)
    ensures
        final(s)@ == without_whitespace(old(s)@),
{
    let t = to_chars(s.as_str());
    let out = strip_whitespace(&t);
    *s = from_chars(&out);
}

/// Whether two texts hold the same characters.
pub fn same_chars(x: &Vec<char>, y: &Vec<char>) -> (same: bool)
    ensures
        same == (x@ == y@),
{
    if x.len() != y.len() {
        return false;
    }
    let mut i: usize = 0;
    while i < x.len()
        invariant
            i <= x.len(),
            x.len() == y.len(),
            forall|k: int| 0 <= k < i ==> x@[k] == y@[k],
        decreases x.len() - i,
    {
        if x[i] != y[i] {
            return false;
        }
        i += 1;
    }
    assert(x@ =~= y@);
    true
}

/// Whether two texts hold the same characters.
pub fn same_text(a: &str, b: &str) -> (same: bool)
    ensures
        same == (a@ == b@),
{
    a.to_owned() == b.to_owned()
}

/// `text` in ASCII lower case.
pub fn to_lower(text: &str) -> (out: String)
    ensures
        out@ == lowered(text@),
{
    let t = to_chars(text);
    let mut out: Vec<char> = Vec::new();
    let mut i: usize = 0;
    while i < t.len()
        invariant
            i <= t.len(),
            out@.len() == i,
            forall|k: int| 0 <= k < i ==> out@[k] == lower_char(t@[k]),
        decreases t.len() - i,
    {
        let c: char = t[i];
        if 'A' <= c && c <= 'Z' {
            out.push(((c as u8) + 32) as char);
        } else {
            out.push(c);
        }
        i += 1;
    }
    assert(out@ =~= lowered(t@));
    from_chars(&out)
}

/// Whether `a` comes strictly before `b` in the order of `str`.
pub fn chars_lt(a: &Vec<char>, b: &Vec<char>) -> (before: bool)
    ensures
        before == text_lt(a@, b@),
{
    let mut i: usize = 0;
    assert(a@.skip(0) == a@ && b@.skip(0) == b@);
    while i < a.len() && i < b.len()
        invariant
            i <= a.len(),
            i <= b.len(),
            text_lt(a@.skip(i as int), b@.skip(i as int)) == text_lt(a@, b@),
        decreases a.len() - i,
    {
        proof {
            assert(a@.skip(i as int).skip(1) == a@.skip(i + 1));
            assert(b@.skip(i as int).skip(1) == b@.skip(i + 1));
        }
        if a[i] != b[i] {
            return (a[i] as u32) < (b[i] as u32);
        }
        i += 1;
    }
    i < b.len()
}

} // verus!


