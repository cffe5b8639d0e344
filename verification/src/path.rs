//! Paths as sequences of segments.
//!
//! A path is written as text in which `/` separates segments. Empty segments
//! carry no meaning, so `/a//b/` and `a/b` name the same sequence `[a, b]`,
//! and `/` names the empty sequence, the root. Whether one path lies under
//! another is decided on segments, never on the text: `/foo` is no ancestor of
//! `/foobar`.

use vstd::prelude::*;
use vstd::string::*;

verus! {

/// A path as the sequence of its segments.
pub type Segments = Seq<Seq<char>>;

/// The state of a left-to-right scan after reading `s`: the segments that a
/// separator has closed, and the characters read since the last separator.
pub open spec fn scan(s: Seq<char>) -> (Segments, Seq<char>)
    decreases s.len(),
{
    if s.len() == 0 {
        (Seq::empty(), Seq::empty())
    } else {
        let (closed, open) = scan(s.drop_last());
        if s.last() == '/' {
            if open.len() > 0 {
                (closed.push(open), Seq::empty())
            } else {
                (closed, open)
            }
        } else {
            (closed, open.push(s.last()))
        }
    }
}

/// The values of a sequence of texts.
pub open spec fn texts(items: Seq<String>) -> Seq<Seq<char>> {
    Seq::new(items.len(), |i: int| items[i]@)
}

/// The segments that the text `s` names.
pub open spec fn segments(s: Seq<char>) -> Segments {
    let (closed, open) = scan(s);
    if open.len() > 0 {
        closed.push(open)
    } else {
        closed
    }
}

/// Where a left-to-right scan of `s` has found segments: the place of the
/// last segment that a separator has closed, if there is one, as a pair of
/// offsets (first character, one past the last), and the offset behind the
/// last separator.
pub open spec fn scan_places(s: Seq<char>) -> (Option<(int, int)>, int)
    decreases s.len(),
{
    if s.len() == 0 {
        (None, 0)
    } else {
        let (closed, start) = scan_places(s.drop_last());
        if s.last() == '/' {
            if s.len() - 1 > start {
                (Some((start, s.len() - 1)), s.len() as int)
            } else {
                (closed, s.len() as int)
            }
        } else {
            (closed, start)
        }
    }
}

/// The place of the last segment of `s`, as a pair of offsets (first
/// character, one past the last). The root has no segment.
pub open spec fn last_place(s: Seq<char>) -> Option<(int, int)> {
    let (closed, start) = scan_places(s);
    if s.len() > start {
        Some((start, s.len() as int))
    } else {
        closed
    }
}

/// The text of the parent of `s`: the beginning of `s` up to the end of the
/// segment before the last, or, where the last segment is the only one, what
/// stands in front of it. The root has no parent.
pub open spec fn parent_text(s: Seq<char>) -> Option<Seq<char>> {
    match last_place(s) {
        None => None,
        Some((a, _)) => match last_place(s.take(a)) {
            None => Some(s.take(a)),
            Some((_, d)) => Some(s.take(d)),
        },
    }
}

/// No segment is empty, and none holds a separator.
pub open spec fn well_formed(parts: Segments) -> bool {
    forall|i: int|
        0 <= i < parts.len() ==> (#[trigger] parts[i]).len() > 0 && !parts[i].contains('/')
}

/// What a scan has closed is well formed, and what it has open holds no
/// separator.
proof fn lemma_scan_well_formed(s: Seq<char>)
    ensures
        well_formed(scan(s).0),
        !scan(s).1.contains('/'),
    decreases s.len(),
{
    if s.len() > 0 {
        lemma_scan_well_formed(s.drop_last());
        let (closed, open) = scan(s.drop_last());
        if s.last() != '/' {
            assert forall|i: int| 0 <= i < open.push(s.last()).len() implies open.push(s.last())[i]
                != '/' by {
                if i < open.len() {
                    assert(open.contains(open[i]));
                }
            }
        }
    }
}

/// The segments of every text are well formed: whatever the text, no segment
/// is empty and none holds a separator.
pub proof fn lemma_segments_well_formed(s: Seq<char>)
    ensures
        well_formed(segments(s)),
{
    lemma_scan_well_formed(s);
}

/// A scan that goes on behind a separator keeps what was closed before it and
/// adds what a scan of the rest alone gives.
proof fn lemma_scan_behind_separator(front: Seq<char>, rest: Seq<char>)
    ensures
        scan(front.push('/') + rest) == (segments(front) + scan(rest).0, scan(rest).1),
    decreases rest.len(),
{
    let joined = front.push('/') + rest;
    if rest.len() == 0 {
        assert(joined =~= front.push('/'));
        assert(front.push('/').drop_last() =~= front);
        assert(segments(front) + scan(rest).0 =~= segments(front));
    } else {
        lemma_scan_behind_separator(front, rest.drop_last());
        assert(joined.drop_last() =~= front.push('/') + rest.drop_last());
        assert(joined.last() == rest.last());
        let (closed, open) = scan(rest.drop_last());
        if rest.last() == '/' && open.len() > 0 {
            assert((segments(front) + closed).push(open) =~= segments(front) + closed.push(open));
        }
    }
}

/// Joining two paths with a separator joins their segments.
pub proof fn lemma_segments_joined(front: Seq<char>, rest: Seq<char>)
    ensures
        segments(front.push('/') + rest) == segments(front) + segments(rest),
{
    lemma_scan_behind_separator(front, rest);
    let (closed, open) = scan(rest);
    if open.len() > 0 {
        assert((segments(front) + closed).push(open) =~= segments(front) + closed.push(open));
    }
}

/// Reading one more character extends the scan by one step.
pub proof fn lemma_scan_step(s: Seq<char>, i: int)
    requires
        0 <= i < s.len(),
    ensures
        scan(s.take(i + 1)) == ({
            let (closed, open) = scan(s.take(i));
            if s[i] == '/' {
                if open.len() > 0 {
                    (closed.push(open), Seq::<char>::empty())
                } else {
                    (closed, open)
                }
            } else {
                (closed, open.push(s[i]))
            }
        }),
        scan_places(s.take(i + 1)) == ({
            let (closed, start) = scan_places(s.take(i));
            if s[i] == '/' {
                if i > start {
                    (Some((start, i)), i + 1)
                } else {
                    (closed, i + 1)
                }
            } else {
                (closed, start)
            }
        }),
{
    assert(s.take(i + 1).drop_last() =~= s.take(i));
    assert(s.take(i + 1).last() == s[i]);
}

/// The segments of `path`, in order.
pub fn split_path(path: &str) -> (parts: Vec<String>)
    ensures
        texts(parts@) == segments(path@),
{
    let n = path.unicode_len();
    let mut parts: Vec<String> = Vec::new();
    let mut start: usize = 0;
    let mut i: usize = 0;
    assert(path@.take(0) =~= Seq::<char>::empty());
    assert(path@.subrange(0, 0) =~= Seq::<char>::empty());
    assert(texts(parts@) =~= Seq::<Seq<char>>::empty());
    while i < n
        invariant
            n == path@.len(),
            start <= i <= n,
            scan(path@.take(i as int)) == (
                texts(parts@),
                path@.subrange(start as int, i as int),
            ),
        decreases n - i,
    {
        let c = path.get_char(i);
        proof {
            lemma_scan_step(path@, i as int);
        }
        if c == '/' {
            if i > start {
                let ghost before = texts(parts@);
                let piece = path.substring_char(start, i).to_owned();
                parts.push(piece);
                assert(texts(parts@) =~= before.push(path@.subrange(start as int, i as int)));
            }
            start = i + 1;
            assert(path@.subrange(start as int, i + 1) =~= Seq::<char>::empty());
        } else {
            assert(path@.subrange(start as int, i + 1) =~= path@.subrange(
                start as int,
                i as int,
            ).push(c));
        }
        i += 1;
    }
    assert(path@.take(n as int) =~= path@);
    if n > start {
        let ghost before = texts(parts@);
        let piece = path.substring_char(start, n).to_owned();
        parts.push(piece);
        assert(texts(parts@) =~= before.push(path@.subrange(start as int, n as int)));
    }
    parts
}

/// Where the last segment of `path` lies, as a pair of character offsets
/// (first character, one past the last), or `None` for the root.
pub fn last_segment(path: &str) -> (r: Option<(usize, usize)>)
    ensures
        match r {
            Some((a, b)) => last_place(path@) == Some((a as int, b as int)),
            None => last_place(path@) is None,
        },
        r is None <==> segments(path@).len() == 0,
        r matches Some((a, b)) ==> {
            &&& a < b <= path@.len()
            &&& segments(path@).last() == path@.subrange(a as int, b as int)
            &&& segments(path@.take(a as int)) == segments(path@).drop_last()
            &&& segments(path@.take(b as int)) == segments(path@)
        },
{
    let n = path.unicode_len();
    let mut found: Option<(usize, usize)> = None;
    let mut start: usize = 0;
    let mut i: usize = 0;
    assert(path@.take(0) =~= Seq::<char>::empty());
    assert(path@.subrange(0, 0) =~= Seq::<char>::empty());
    while i < n
        invariant
            n == path@.len(),
            start <= i <= n,
            scan(path@.take(i as int)).1 == path@.subrange(start as int, i as int),
            scan(path@.take(start as int)) == (
                scan(path@.take(i as int)).0,
                Seq::<char>::empty(),
            ),
            scan_places(path@.take(i as int)) == (
                match found {
                    Some((a, b)) => Some((a as int, b as int)),
                    None => None,
                },
                start as int,
            ),
            found is None <==> scan(path@.take(i as int)).0.len() == 0,
            found matches Some((a, b)) ==> {
                &&& a < b <= start
                &&& scan(path@.take(i as int)).0.last() == path@.subrange(a as int, b as int)
                &&& segments(path@.take(a as int)) == scan(path@.take(i as int)).0.drop_last()
                &&& segments(path@.take(b as int)) == scan(path@.take(i as int)).0
            },
        decreases n - i,
    {
        let c = path.get_char(i);
        proof {
            lemma_scan_step(path@, i as int);
        }
        if c == '/' {
            if i > start {
                proof {
                    let closed = scan(path@.take(i as int)).0;
                    let open = path@.subrange(start as int, i as int);
                    assert(closed.push(open).drop_last() =~= closed);
                }
                found = Some((start, i));
            }
            start = i + 1;
            assert(path@.subrange(start as int, i + 1) =~= Seq::<char>::empty());
        } else {
            assert(path@.subrange(start as int, i + 1) =~= path@.subrange(
                start as int,
                i as int,
            ).push(c));
        }
        i += 1;
    }
    assert(path@.take(n as int) =~= path@);
    if n > start {
        proof {
            let closed = scan(path@).0;
            let open = path@.subrange(start as int, n as int);
            assert(closed.push(open).drop_last() =~= closed);
        }
        Some((start, n))
    } else {
        found
    }
}

/// The path one level up. The root has no parent.
///
/// The parent is the beginning of `path`: up to the end of the segment
/// before the last, or, where the last segment is the only one, what stands
/// in front of it. So the parent of `/a/b/` is `/a`, that of `/a` is `/`, and
/// that of `a` is empty.
pub fn parent_path(path: &str) -> (r: Option<String>)
    ensures
        match r {
            Some(p) => parent_text(path@) == Some(p@),
            None => parent_text(path@) is None,
        },
        r is None <==> segments(path@).len() == 0,
        r matches Some(p) ==> {
            &&& segments(p@) == segments(path@).drop_last()
            &&& p@.len() < path@.len()
            &&& p@ == path@.take(p@.len() as int)
            &&& if segments(p@).len() > 0 {
                p@.last() != '/'
            } else {
                path@[p@.len() as int] != '/'
            }
        },
{
    match last_segment(path) {
        None => None,
        Some((a, b)) => {
            assert(path@.subrange(0, a as int) =~= path@.take(a as int));
            let front = path.substring_char(0, a);
            match last_segment(front) {
                None => {
                    proof {
                        lemma_segments_well_formed(path@);
                        let last = path@.subrange(a as int, b as int);
                        assert(last == segments(path@)[segments(path@).len() - 1]);
                        assert(last.contains(last[0]));
                    }
                    Some(front.to_owned())
                },
                Some((c, d)) => {
                    assert(front@.subrange(0, d as int) =~= front@.take(d as int));
                    assert(front@.take(d as int) =~= path@.take(d as int));
                    proof {
                        lemma_segments_well_formed(front@);
                        let last = front@.subrange(c as int, d as int);
                        assert(last == segments(front@)[segments(front@).len() - 1]);
                        assert(last.contains(last[d - c - 1]));
                    }
                    Some(front.substring_char(0, d).to_owned())
                },
            }
        },
    }
}

} // verus!
