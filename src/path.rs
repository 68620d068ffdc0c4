//! Key paths: sequences of segment strings, written joined by a backslash.
use vstd::prelude::*;
use crate::order::{lemma_text_order, text_less, text_lt};
use crate::value::strings_view;

verus! {

/// The character that separates the segments of a written path.
pub const SEPARATOR: char = '\\';

/// Mathematical form of a path: its segments. The root is the empty sequence.
pub type PathV = Seq<Seq<char>>;

/// The pieces of `s` between separators, in order. Two adjacent separators give an
/// empty piece; a text without separator is one piece.
pub open spec fn split_segments(s: Seq<char>) -> Seq<Seq<char>>
    decreases s.len(),
{
    if s.len() == 0 {
        seq![Seq::empty()]
    } else {
        let r = split_segments(s.drop_last());
        if s.last() == SEPARATOR {
            r.push(Seq::empty())
        } else {
            r.update(r.len() - 1, r.last().push(s.last()))
        }
    }
}

/// The path that a written path denotes. The empty text is the root; otherwise every
/// piece between separators is a segment, an empty piece included.
pub open spec fn parse_path(s: Seq<char>) -> PathV {
    if s.len() == 0 {
        Seq::empty()
    } else {
        split_segments(s)
    }
}

/// The segments of `p` joined by the separator.
pub open spec fn join_path(p: PathV) -> Seq<char>
    decreases p.len(),
{
    if p.len() == 0 {
        Seq::empty()
    } else if p.len() == 1 {
        p[0]
    } else {
        join_path(p.drop_last()) + seq![SEPARATOR] + p.last()
    }
}

/// `a` is a prefix of `b` (every path is a prefix of itself).
pub open spec fn is_prefix(a: PathV, b: PathV) -> bool {
    a.len() <= b.len() && b.subrange(0, a.len() as int) == a
}

proof fn lemma_split_nonempty(s: Seq<char>)
    ensures
        split_segments(s).len() >= 1,
    decreases s.len(),
{
    if s.len() > 0 {
        lemma_split_nonempty(s.drop_last());
    }
}

/// A path in a registry.
#[derive(Debug, PartialEq, Eq)]
pub struct KeyPath {
    segments: Vec<String>,
}

impl View for KeyPath {
    type V = PathV;

    closed spec fn view(&self) -> PathV {
        strings_view(self.segments@)
    }
}

impl KeyPath {
    /// The root path, with no segment.
    pub fn root() -> (r: KeyPath)
        ensures
            r@ == Seq::<Seq<char>>::empty(),
    {
        let r = KeyPath { segments: Vec::new() };
        assert(r@ =~= Seq::<Seq<char>>::empty());
        r
    }

    /// The path with the given segments.
    pub fn new(segments: Vec<String>) -> (r: KeyPath)
        ensures
            r@ == strings_view(segments@),
    {
        KeyPath { segments }
    }

    /// The segments of the path.
    pub fn segments(&self) -> (r: &Vec<String>)
        ensures
            strings_view(r@) == self@,
    {
        &self.segments
    }

    /// Number of segments.
    pub fn len(&self) -> (r: usize)
        ensures
            r == self@.len(),
    {
        self.segments.len()
    }

    /// Reads a written path. Segments are compared exactly later on: no case folding,
    /// no trimming. An empty piece (from a doubled, leading or trailing separator) is kept
    /// as a segment with an empty name.
    pub fn parse(raw: &str) -> (r: KeyPath)
        ensures
            r@ == parse_path(raw@),
    {
        let n = raw.unicode_len();
        if n == 0 {
            return KeyPath::root();
        }
        let mut segments: Vec<String> = Vec::new();
        let mut start: usize = 0;
        let mut i: usize = 0;
        assert(strings_view(segments@) =~= Seq::<Seq<char>>::empty());
        assert(raw@.subrange(0, 0) =~= Seq::<char>::empty());
        assert(strings_view(segments@).push(raw@.subrange(0, 0)) =~= split_segments(raw@.subrange(0, 0)));
        while i < n
            invariant
                n == raw@.len(),
                start <= i <= n,
                strings_view(segments@).push(raw@.subrange(start as int, i as int))
                    == split_segments(raw@.subrange(0, i as int)),
            decreases n - i,
        {
            let c = raw.get_char(i);
            let ghost pre = raw@.subrange(0, i as int);
            let ghost cur = raw@.subrange(0, i + 1);
            assert(cur.drop_last() == pre);
            assert(cur.last() == c);
            proof {
                lemma_split_nonempty(pre);
            }
            if c == SEPARATOR {
                let ghost before = strings_view(segments@);
                let piece = String::from_str(raw.substring_char(start, i));
                let ghost piece_v = piece@;
                segments.push(piece);
                assert(strings_view(segments@) =~= before.push(piece_v));
                start = i + 1;
                assert(raw@.subrange(start as int, i + 1) =~= Seq::<char>::empty());
            } else {
                let ghost r = strings_view(segments@).push(raw@.subrange(start as int, i as int));
                assert(raw@.subrange(start as int, i + 1) =~= raw@.subrange(start as int, i as int).push(c));
                assert(r.update(r.len() - 1, r.last().push(c)) =~= strings_view(segments@).push(
                    raw@.subrange(start as int, i + 1),
                ));
            }
            i = i + 1;
        }
        segments.push(String::from_str(raw.substring_char(start, n)));
        assert(raw@.subrange(0, n as int) =~= raw@);
        KeyPath { segments }
    }
}


impl KeyPath {
    /// The path written with its segments joined by the separator.
    pub fn to_raw(&self) -> (r: String)
        ensures
            r@ == join_path(self@),
    {
        let mut r = String::new();
        let mut i: usize = 0;
        while i < self.segments.len()
            invariant
                i <= self@.len(),
                self@.len() == self.segments@.len(),
                r@ == join_path(self@.subrange(0, i as int)),
            decreases self.segments.len() - i,
        {
            let ghost p = self@.subrange(0, i + 1);
            assert(p.drop_last() =~= self@.subrange(0, i as int));
            assert(p.last() == self.segments@[i as int]@);
            if i > 0 {
                r.append("\\");
                proof {
                    reveal_strlit("\\");
                }
                assert(r@ =~= join_path(p.drop_last()) + seq![SEPARATOR]);
            } else {
                assert(join_path(p) == p[0]);
                assert(r@ =~= Seq::<char>::empty());
            }
            r.append(self.segments[i].as_str());
            i = i + 1;
        }
        assert(self@.subrange(0, i as int) =~= self@);
        r
    }

    /// Whether two paths have the same segments, compared exactly.
    pub fn same_as(&self, other: &KeyPath) -> (r: bool)
        ensures
            r == (self@ == other@),
    {
        if self.segments.len() != other.segments.len() {
            return false;
        }
        let mut i: usize = 0;
        while i < self.segments.len()
            invariant
                self.segments@.len() == other.segments@.len(),
                self@.len() == self.segments@.len(),
                other@.len() == other.segments@.len(),
                i <= self.segments@.len(),
                forall|j: int| 0 <= j < i ==> self@[j] == other@[j],
            decreases self.segments.len() - i,
        {
            if self.segments[i] != other.segments[i] {
                assert(self@[i as int] != other@[i as int]);
                return false;
            }
            i = i + 1;
        }
        assert(self@ =~= other@);
        true
    }

    /// The first `n` segments.
    pub fn prefix(&self, n: usize) -> (r: KeyPath)
        requires
            n <= self@.len(),
        ensures
            r@ == self@.subrange(0, n as int),
    {
        let mut segments: Vec<String> = Vec::new();
        let mut i: usize = 0;
        while i < n
            invariant
                n <= self@.len(),
                self@.len() == self.segments@.len(),
                i <= n,
                strings_view(segments@) == self@.subrange(0, i as int),
            decreases n - i,
        {
            let ghost before = strings_view(segments@);
            let s = self.segments[i].clone();
            segments.push(s);
            assert(strings_view(segments@) =~= before.push(self@[i as int]));
            assert(self@.subrange(0, i + 1) =~= self@.subrange(0, i as int).push(self@[i as int]));
            i = i + 1;
        }
        KeyPath { segments }
    }

    /// The path of the parent key: `None` for the root.
    pub fn parent(&self) -> (r: Option<KeyPath>)
        ensures
            self@.len() == 0 ==> r is None,
            self@.len() > 0 ==> (r matches Some(p) && p@ == self@.drop_last()),
    {
        if self.segments.len() == 0 {
            None
        } else {
            let p = self.prefix(self.segments.len() - 1);
            assert(self@.drop_last() =~= self@.subrange(0, self@.len() - 1));
            Some(p)
        }
    }
}

impl Clone for KeyPath {
    fn clone(&self) -> (r: Self)
        ensures
            r@ == self@,
    {
        self.prefix(self.segments.len())
    }
}

/// `a` comes before `b`: at the first segment where they differ `a`'s comes first
/// as text, or `a` is a proper prefix of `b`. A key thus comes before its descendants,
/// and the keys of a subtree come together.
pub open spec fn path_lt(a: PathV, b: PathV) -> bool
    decreases a.len(),
{
    if a.len() == 0 {
        b.len() > 0
    } else if b.len() == 0 {
        false
    } else if a[0] != b[0] {
        text_lt(a[0], b[0])
    } else {
        path_lt(a.drop_first(), b.drop_first())
    }
}

/// The order on paths is strict, total and transitive.
pub proof fn lemma_path_order(a: PathV, b: PathV, c: PathV)
    ensures
        !path_lt(a, a),
        a != b ==> path_lt(a, b) || path_lt(b, a),
        path_lt(a, b) && path_lt(b, c) ==> path_lt(a, c),
    decreases a.len(),
{
    if a.len() > 0 {
        let a1 = a.drop_first();
        lemma_text_order(a[0], a[0], a[0]);
        if b.len() > 0 && c.len() > 0 {
            lemma_path_order(a1, b.drop_first(), c.drop_first());
            lemma_text_order(a[0], b[0], c[0]);
            lemma_text_order(b[0], a[0], c[0]);
        } else if b.len() > 0 {
            lemma_path_order(a1, b.drop_first(), a1);
            lemma_text_order(a[0], b[0], b[0]);
        } else {
            lemma_path_order(a1, a1, a1);
        }
        if b.len() > 0 && a[0] == b[0] && a != b {
            assert(a.drop_first() != b.drop_first()) by {
                if a.drop_first() == b.drop_first() {
                    assert(a =~= seq![a[0]] + a.drop_first());
                    assert(b =~= seq![b[0]] + b.drop_first());
                }
            }
        }
    } else if b.len() == 0 {
        assert(a =~= b);
    }
}

impl KeyPath {
    /// Whether this path comes before `other` in the order of `path_lt`.
    pub fn less_than(&self, other: &KeyPath) -> (r: bool)
        ensures
            r == path_lt(self@, other@),
    {
        let n = self.segments.len();
        let m = other.segments.len();
        let mut i: usize = 0;
        assert(self@.subrange(0, n as int) =~= self@);
        assert(other@.subrange(0, m as int) =~= other@);
        while i < n && i < m
            invariant
                n == self@.len(),
                m == other@.len(),
                n == self.segments@.len(),
                m == other.segments@.len(),
                i <= n,
                i <= m,
                path_lt(self@, other@) == path_lt(self@.subrange(i as int, n as int), other@.subrange(i as int, m as int)),
            decreases n - i,
        {
            let ghost ra = self@.subrange(i as int, n as int);
            let ghost rb = other@.subrange(i as int, m as int);
            assert(ra[0] == self.segments@[i as int]@ && rb[0] == other.segments@[i as int]@);
            if self.segments[i] != other.segments[i] {
                return text_less(self.segments[i].as_str(), other.segments[i].as_str());
            }
            assert(ra.drop_first() =~= self@.subrange(i + 1, n as int));
            assert(rb.drop_first() =~= other@.subrange(i + 1, m as int));
            i = i + 1;
        }
        i == n && i < m
    }
}

} // verus!
