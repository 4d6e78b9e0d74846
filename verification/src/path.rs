//! Lexical path algebra on `/`-separated paths. Nothing here touches a
//! file system.

use crate::text::{
    from_chars, joined, push_range, same_chars, split, split_chars, to_chars,
};
use vstd::prelude::*;

verus! {

/// The segment `.`.
pub open spec fn dot() -> Seq<char> {
    seq!['.']
}

/// The segment `..`.
pub open spec fn dot_dot() -> Seq<char> {
    seq!['.', '.']
}

/// Whether `path` starts at the root.
pub open spec fn is_rooted(path: Seq<char>) -> bool {
    path.len() > 0 && path[0] == '/'
}

/// The segments kept so far, after `segment` is read. Empty segments and
/// `.` are dropped. `..` takes back the last kept normal segment; with none
/// to take back it is dropped below the root and kept in a relative path.
pub open spec fn step(kept: Seq<Seq<char>>, segment: Seq<char>, rooted: bool) -> Seq<Seq<char>> {
    if segment.len() == 0 || segment == dot() {
        kept
    } else if segment == dot_dot() {
        if kept.len() > 0 && kept.last() != dot_dot() {
            kept.drop_last()
        } else if rooted {
            kept
        } else {
            kept.push(segment)
        }
    } else {
        kept.push(segment)
    }
}

/// The segments kept after all of `segments` are read, from the left.
pub open spec fn walked(segments: Seq<Seq<char>>, kept: Seq<Seq<char>>, rooted: bool) -> Seq<
    Seq<char>,
>
    decreases segments.len(),
{
    if segments.len() == 0 {
        kept
    } else {
        walked(segments.skip(1), step(kept, segments[0], rooted), rooted)
    }
}

/// `path` without `.`, `..` and empty segments, as far as that can be
/// decided from the text alone. A leading `/` stays; a relative path that
/// comes to nothing is `.`.
pub open spec fn normalized(path: Seq<char>) -> Seq<char> {
    let rooted = is_rooted(path);
    let kept = walked(split(path, '/'), Seq::empty(), rooted);
    if rooted {
        seq!['/'] + joined(kept, '/')
    } else if kept.len() == 0 {
        dot()
    } else {
        joined(kept, '/')
    }
}

/// `relative` seen from the directory `base`, normalized.
pub open spec fn resolved(base: Seq<char>, relative: Seq<char>) -> Seq<char> {
    if base.len() == 0 {
        normalized(relative)
    } else {
        normalized(base + seq!['/'] + relative)
    }
}

/// The index of the last `c` in `text`, or -1.
pub open spec fn last_index(text: Seq<char>, c: char) -> int
    decreases text.len(),
{
    if text.len() == 0 {
        -1
    } else if text.last() == c {
        text.len() - 1
    } else {
        last_index(text.drop_last(), c)
    }
}

/// The last segment of `path`, unless it is empty, `.` or `..`.
pub open spec fn file_name(path: Seq<char>) -> Option<Seq<char>> {
    let name = path.skip(last_index(path, '/') + 1);
    if name.len() == 0 || name == dot() || name == dot_dot() {
        None
    } else {
        Some(name)
    }
}

/// `name` up to its last `.`; all of it where it has none or only a
/// leading one.
pub open spec fn stem_of(name: Seq<char>) -> Seq<char> {
    let k = last_index(name, '.');
    if k <= 0 {
        name
    } else {
        name.take(k)
    }
}

/// The file name of `path` without its extension.
pub open spec fn stem(path: Seq<char>) -> Option<Seq<char>> {
    match file_name(path) {
        Some(name) => Some(stem_of(name)),
        None => None,
    }
}

/// `path` up to its last `/`: empty where it has none, `/` where that is
/// its only one and leads.
pub open spec fn directory(path: Seq<char>) -> Seq<char> {
    let k = last_index(path, '/');
    if k < 0 {
        Seq::empty()
    } else if k == 0 {
        seq!['/']
    } else {
        path.take(k)
    }
}

/// Whether `segment` names something: it is not empty, not `.` and not
/// `..`.
pub open spec fn is_name(segment: Seq<char>) -> bool {
    segment.len() > 0 && segment != dot() && segment != dot_dot()
}

/// Whether `kept` is what a normalized path is made of: names, and before
/// them, in a relative path only, any number of `..`.
pub open spec fn tidy(kept: Seq<Seq<char>>, rooted: bool) -> bool {
    forall|i: int|
        0 <= i < kept.len() ==> is_name(#[trigger] kept[i]) || (!rooted && kept[i] == dot_dot()
            && forall|j: int| 0 <= j < i ==> #[trigger] kept[j] == dot_dot())
}

/// Reading a segment keeps the kept segments tidy.
pub proof fn lemma_step_tidy(kept: Seq<Seq<char>>, segment: Seq<char>, rooted: bool)
    requires
        tidy(kept, rooted),
    ensures
        tidy(step(kept, segment, rooted), rooted),
{
    let after = step(kept, segment, rooted);
    assert forall|i: int| 0 <= i < after.len() implies is_name(#[trigger] after[i]) || (!rooted
        && after[i] == dot_dot() && forall|j: int| 0 <= j < i ==> #[trigger] after[j]
        == dot_dot()) by {
        if i < kept.len() {
            assert(after[i] == kept[i]);
            if !is_name(kept[i]) {
                assert forall|j: int| 0 <= j < i implies #[trigger] after[j] == dot_dot() by {
                    assert(after[j] == kept[j]);
                }
            }
        } else if segment == dot_dot() {
            if kept.len() > 0 {
                let last = kept.len() - 1;
                assert(!is_name(kept[last]));
                assert forall|j: int| 0 <= j < i implies #[trigger] after[j] == dot_dot() by {
                    assert(after[j] == kept[j]);
                }
            }
        }
    }
}

/// A normalized path holds no empty segment and no `.`, and `..` only at
/// the start of a relative path: whatever is read, the kept segments stay
/// tidy.
pub proof fn lemma_walked_tidy(segments: Seq<Seq<char>>, kept: Seq<Seq<char>>, rooted: bool)
    requires
        tidy(kept, rooted),
    ensures
        tidy(walked(segments, kept, rooted), rooted),
    decreases segments.len(),
{
    if segments.len() > 0 {
        lemma_step_tidy(kept, segments[0], rooted);
        lemma_walked_tidy(segments.skip(1), step(kept, segments[0], rooted), rooted);
    }
}

/// `last_index` finds an occurrence after which there is no other.
pub proof fn lemma_last_index(text: Seq<char>, c: char)
    ensures
        -1 <= last_index(text, c) < text.len(),
        last_index(text, c) >= 0 ==> text[last_index(text, c)] == c,
        forall|k: int| last_index(text, c) < k < text.len() ==> text[k] != c,
    decreases text.len(),
{
    if text.len() > 0 && text.last() != c {
        let init = text.drop_last();
        lemma_last_index(init, c);
        assert forall|k: int| last_index(text, c) < k < text.len() implies text[k] != c by {
            if k < init.len() {
                assert(init[k] == text[k]);
            }
        }
    }
}

/// An index after which `c` does not occur, and at which it does, is the
/// last one.
pub proof fn lemma_last_index_is(text: Seq<char>, c: char, at: int)
    requires
        -1 <= at < text.len(),
        at >= 0 ==> text[at] == c,
        forall|k: int| at < k < text.len() ==> text[k] != c,
    ensures
        last_index(text, c) == at,
    decreases text.len(),
{
    if text.len() > 0 && text.last() != c {
        lemma_last_index_is(text.drop_last(), c, at);
    }
}

/// The index of the last `c` in `t`, if there is one.
fn find_last(t: &Vec<char>, c: char) -> (at: Option<usize>)
    ensures
        match at {
            Some(k) => k == last_index(t@, c) && k < t.len(),
            None => last_index(t@, c) == -1,
        },
{
    let mut i: usize = t.len();
    while i > 0
        invariant
            i <= t.len(),
            forall|k: int| i <= k < t.len() ==> t@[k] != c,
        decreases i,
    {
        i -= 1;
        if t[i] == c {
            proof {
                lemma_last_index_is(t@, c, i as int);
            }
            return Some(i);
        }
    }
    proof {
        lemma_last_index_is(t@, c, -1);
    }
    None
}

/// Reads one segment.
fn take_step(kept: &mut Vec<Vec<char>>, segment: Vec<char>, rooted: bool)
    ensures
        final(kept)@.len() == step(pieces_view(old(kept)@), segment@, rooted).len(),
        pieces_view(final(kept)@) == step(pieces_view(old(kept)@), segment@, rooted),
{
    let ghost before = pieces_view(kept@);
    let mut one: Vec<char> = Vec::new();
    one.push('.');
    let mut two: Vec<char> = Vec::new();
    two.push('.');
    two.push('.');
    assert(one@ == dot());
    assert(two@ == dot_dot());
    if segment.len() == 0 || same_chars(&segment, &one) {
    } else if same_chars(&segment, &two) {
        let n: usize = kept.len();
        if n > 0 && !same_chars(&kept[n - 1], &two) {
            kept.pop();
            assert(pieces_view(kept@) == before.drop_last());
        } else if rooted {
        } else {
            kept.push(segment);
            assert(pieces_view(kept@) == before.push(segment@));
        }
    } else {
        kept.push(segment);
        assert(pieces_view(kept@) == before.push(segment@));
    }
}

/// The texts that `pieces` hold.
pub open spec fn pieces_view(pieces: Seq<Vec<char>>) -> Seq<Seq<char>> {
    Seq::new(pieces.len(), |k: int| pieces[k]@)
}

/// `pieces` written one after another with `sep` between neighbours.
fn join_chars(pieces: &Vec<Vec<char>>, sep: char) -> (out: Vec<char>)
    ensures
        out@ == joined(pieces_view(pieces@), sep),
{
    let mut out: Vec<char> = Vec::new();
    let ghost all = pieces_view(pieces@);
    let mut i: usize = 0;
    assert(all.take(0) == Seq::<Seq<char>>::empty());
    while i < pieces.len()
        invariant
            i <= pieces.len(),
            all == pieces_view(pieces@),
            out@ == joined(all.take(i as int), sep),
        decreases pieces.len() - i,
    {
        let ghost upto = all.take(i + 1);
        proof {
            assert(upto.drop_last() == all.take(i as int));
            assert(upto.last() == pieces@[i as int]@);
        }
        if i > 0 {
            out.push(sep);
        }
        let piece = &pieces[i];
        push_range(&mut out, piece, 0, piece.len());
        proof {
            assert(piece@.subrange(0, piece@.len() as int) == piece@);
            if i == 0 {
                assert(Seq::<char>::empty() + piece@ == piece@);
            }
        }
        i += 1;
    }
    assert(all.take(all.len() as int) == all);
    out
}

/// `t`, normalized.
pub fn normalize_chars(t: &Vec<char>) -> (out: Vec<char>)
    ensures
        out@ == normalized(t@),
{
    let rooted = t.len() > 0 && t[0] == '/';
    let mut segments = split_chars(t, '/');
    let ghost all = split(t@, '/');
    let mut kept: Vec<Vec<char>> = Vec::new();
    let n: usize = segments.len();
    let mut i: usize = 0;
    assert(all.skip(0) == all);
    assert(pieces_view(kept@) == Seq::<Seq<char>>::empty());
    while i < n
        invariant
            i <= n,
            n == segments.len(),
            all.len() == n,
            forall|k: int| i <= k < n ==> (#[trigger] segments@[k])@ == all[k],
            walked(all.skip(i as int), pieces_view(kept@), rooted) == walked(
                all,
                Seq::empty(),
                rooted,
            ),
        decreases n - i,
    {
        let mut segment: Vec<char> = Vec::new();
        std::mem::swap(&mut segment, &mut segments[i]);
        proof {
            assert(all.skip(i as int).skip(1) == all.skip(i + 1));
            assert(segment@ == all.skip(i as int)[0]);
        }
        take_step(&mut kept, segment, rooted);
        i += 1;
    }
    let body = join_chars(&kept, '/');
    let mut out: Vec<char> = Vec::new();
    if rooted {
        out.push('/');
        push_range(&mut out, &body, 0, body.len());
        assert(body@.subrange(0, body@.len() as int) == body@);
    } else if kept.len() == 0 {
        out.push('.');
        assert(out@ == dot());
    } else {
        push_range(&mut out, &body, 0, body.len());
        assert(body@.subrange(0, body@.len() as int) == body@);
        assert(Seq::<char>::empty() + body@ == body@);
    }
    out
}

/// `path` without `.`, `..` and empty segments.
pub fn normalize(path: &str) -> (out: String)
    ensures
        out@ == normalized(path@),
{
    let t = to_chars(path);
    let out = normalize_chars(&t);
    from_chars(&out)
}

/// `relative` seen from the directory `base`, normalized.
pub fn resolve_chars(base: &Vec<char>, relative: &Vec<char>) -> (out: Vec<char>)
    ensures
        out@ == resolved(base@, relative@),
{
    if base.len() == 0 {
        return normalize_chars(relative);
    }
    let mut whole: Vec<char> = Vec::new();
    push_range(&mut whole, base, 0, base.len());
    whole.push('/');
    push_range(&mut whole, relative, 0, relative.len());
    proof {
        assert(base@.subrange(0, base@.len() as int) == base@);
        assert(relative@.subrange(0, relative@.len() as int) == relative@);
        assert(whole@ == base@ + seq!['/'] + relative@);
    }
    normalize_chars(&whole)
}

/// `relative` seen from the directory `base`, normalized.
pub fn resolve(base: &str, relative: &str) -> (out: String)
    ensures
        out@ == resolved(base@, relative@),
{
    let b = to_chars(base);
    let r = to_chars(relative);
    let out = resolve_chars(&b, &r);
    from_chars(&out)
}

/// The file name of `t` without its extension.
pub fn stem_chars(t: &Vec<char>) -> (out: Option<Vec<char>>)
    ensures
        match out {
            Some(s) => stem(t@) == Some(s@),
            None => stem(t@) is None,
        },
{
    let from: usize = match find_last(t, '/') {
        Some(k) => k + 1,
        None => 0,
    };
    proof {
        lemma_last_index(t@, '/');
    }
    let mut name: Vec<char> = Vec::new();
    push_range(&mut name, t, from, t.len());
    assert(name@ == t@.skip(from as int));
    let mut one: Vec<char> = Vec::new();
    one.push('.');
    let mut two: Vec<char> = Vec::new();
    two.push('.');
    two.push('.');
    assert(one@ == dot());
    assert(two@ == dot_dot());
    if name.len() == 0 || same_chars(&name, &one) || same_chars(&name, &two) {
        return None;
    }
    match find_last(&name, '.') {
        Some(k) => {
            if k == 0 {
                Some(name)
            } else {
                let mut out: Vec<char> = Vec::new();
                push_range(&mut out, &name, 0, k);
                Some(out)
            }
        },
        None => Some(name),
    }
}

/// The file name of `path` without its extension.
pub fn file_stem(path: &str) -> (out: Option<String>)
    ensures
        match out {
            Some(s) => stem(path@) == Some(s@),
            None => stem(path@) is None,
        },
{
    let t = to_chars(path);
    match stem_chars(&t) {
        Some(s) => Some(from_chars(&s)),
        None => None,
    }
}

/// `t` up to its last `/`.
pub fn directory_chars(t: &Vec<char>) -> (out: Vec<char>)
    ensures
        out@ == directory(t@),
{
    let mut out: Vec<char> = Vec::new();
    match find_last(t, '/') {
        Some(k) => {
            if k == 0 {
                out.push('/');
            } else {
                push_range(&mut out, t, 0, k);
            }
        },
        None => {},
    }
    out
}

/// `path` up to its last `/`.
pub fn parent_dir(path: &str) -> (out: String)
    ensures
        out@ == directory(path@),
{
    let t = to_chars(path);
    let out = directory_chars(&t);
    from_chars(&out)
}

} // verus!
