//! Canonical path handles.
//!
//! A [`PathId`] is the canonical form of a filesystem path: an absolute flag
//! plus the sequence of non-empty segments between separators. Equality is
//! on that canonical form, so two handles built from the same path always
//! compare equal, however many redundant separators the inputs carried.

use vstd::prelude::*;
use vstd::string::StrSliceExecFns;
use vstd::string::StringSliceAdditionalSpecFns;

verus! {

/// The byte value of the path separator `/`.
pub const SEPARATOR: u8 = 47;

/// One step of splitting the byte sequence `b` into segments: `i` is the
/// next byte to look at, `acc` the segment collected so far, `out` the
/// segments already produced. Empty segments (leading, trailing or doubled
/// separators) are dropped.
pub open spec fn split_step(b: Seq<u8>, i: int, acc: Seq<u8>, out: Seq<Seq<u8>>) -> Seq<Seq<u8>>
    decreases b.len() - i,
{
    if i < 0 || i >= b.len() {
        if acc.len() > 0 {
            out.push(acc)
        } else {
            out
        }
    } else if b[i] == SEPARATOR {
        split_step(b, i + 1, Seq::empty(), if acc.len() > 0 { out.push(acc) } else { out })
    } else {
        split_step(b, i + 1, acc.push(b[i]), out)
    }
}

/// The canonical segments of a path written as the byte sequence `b`.
pub open spec fn segments_of(b: Seq<u8>) -> Seq<Seq<u8>> {
    split_step(b, 0, Seq::empty(), Seq::empty())
}

/// Whether the byte sequence `b` writes an absolute path.
pub open spec fn absolute_of(b: Seq<u8>) -> bool {
    b.len() > 0 && b[0] == SEPARATOR
}

/// A canonical segment: non-empty and free of separators.
pub open spec fn seg_wf(seg: Seq<u8>) -> bool {
    seg.len() > 0 && forall|i: int| 0 <= i < seg.len() ==> seg[i] != SEPARATOR
}

proof fn lemma_split_step_wf(b: Seq<u8>, i: int, acc: Seq<u8>, out: Seq<Seq<u8>>)
    requires
        forall|j: int| 0 <= j < acc.len() ==> acc[j] != SEPARATOR,
        forall|k: int| 0 <= k < out.len() ==> seg_wf(#[trigger] out[k]),
    ensures
        forall|k: int|
            0 <= k < split_step(b, i, acc, out).len() ==> seg_wf(
                #[trigger] split_step(b, i, acc, out)[k],
            ),
    decreases b.len() - i,
{
    if acc.len() > 0 {
        assert forall|k: int| 0 <= k < out.push(acc).len() implies seg_wf(
            #[trigger] out.push(acc)[k],
        ) by {
            if k < out.len() {
                assert(out.push(acc)[k] == out[k]);
            } else {
                assert(out.push(acc)[k] == acc);
            }
        }
    }
    if i < 0 || i >= b.len() {
        if acc.len() > 0 {
            assert(split_step(b, i, acc, out) == out.push(acc));
        } else {
            assert(split_step(b, i, acc, out) == out);
        }
    } else if b[i] == SEPARATOR {
        let passed = if acc.len() > 0 {
            out.push(acc)
        } else {
            out
        };
        lemma_split_step_wf(b, i + 1, Seq::empty(), passed);
        assert(split_step(b, i, acc, out) == split_step(b, i + 1, Seq::empty(), passed));
    } else {
        lemma_split_step_wf(b, i + 1, acc.push(b[i]), out);
        assert(split_step(b, i, acc, out) == split_step(b, i + 1, acc.push(b[i]), out));
    }
}

/// Every canonical segment is non-empty and free of separators.
pub proof fn lemma_segments_canonical(b: Seq<u8>)
    ensures
        forall|k: int| 0 <= k < segments_of(b).len() ==> seg_wf(#[trigger] segments_of(b)[k]),
{
    lemma_split_step_wf(b, 0, Seq::empty(), Seq::empty());
}

/// The textual form of a sequence of segments: the segments joined by
/// separators.
pub open spec fn render_segs(segs: Seq<Seq<u8>>) -> Seq<u8>
    decreases segs.len(),
{
    if segs.len() == 0 {
        Seq::empty()
    } else if segs.len() == 1 {
        segs[0]
    } else {
        segs[0] + seq![SEPARATOR] + render_segs(segs.drop_first())
    }
}

/// The textual form of a whole path: a leading separator when absolute,
/// then the segments joined by separators.
pub open spec fn render_path(absolute: bool, segs: Seq<Seq<u8>>) -> Seq<u8> {
    if absolute {
        seq![SEPARATOR] + render_segs(segs)
    } else {
        render_segs(segs)
    }
}

/// Splitting walks over a separator-free stretch by collecting it into the
/// pending segment.
proof fn lemma_split_nonsep(b: Seq<u8>, j: int, n: int, acc: Seq<u8>, out: Seq<Seq<u8>>)
    requires
        0 <= j,
        0 <= n,
        j + n <= b.len(),
        forall|t: int| j <= t < j + n ==> b[t] != SEPARATOR,
    ensures
        split_step(b, j, acc, out) == split_step(b, j + n, acc + b.subrange(j, j + n), out),
    decreases n,
{
    if n == 0 {
        assert(acc + b.subrange(j, j) =~= acc);
    } else {
        lemma_split_nonsep(b, j + 1, n - 1, acc.push(b[j]), out);
        assert(acc.push(b[j]) + b.subrange(j + 1, j + n) =~= acc + b.subrange(j, j + n));
        assert(split_step(b, j, acc, out) == split_step(b, j + 1, acc.push(b[j]), out));
    }
}

/// Splitting does not look behind the current index: it equals splitting
/// the remaining suffix from its start.
proof fn lemma_split_shift(b: Seq<u8>, j: int, acc: Seq<u8>, out: Seq<Seq<u8>>)
    requires
        0 <= j <= b.len(),
    ensures
        split_step(b, j, acc, out) == split_step(b.subrange(j, b.len() as int), 0, acc, out),
    decreases b.len() - j,
{
    let suffix = b.subrange(j, b.len() as int);
    if j == b.len() {
        assert(suffix.len() == 0);
    } else {
        assert(suffix[0] == b[j]);
        if b[j] == SEPARATOR {
            let passed = if acc.len() > 0 {
                out.push(acc)
            } else {
                out
            };
            lemma_split_shift(b, j + 1, Seq::empty(), passed);
            assert(suffix.subrange(1, suffix.len() as int) =~= b.subrange(j + 1, b.len() as int));
            assert(split_step(suffix, 0, acc, out) == split_step(suffix, 1, Seq::empty(), passed));
            lemma_split_shift(suffix, 1, Seq::empty(), passed);
        } else {
            lemma_split_shift(b, j + 1, acc.push(b[j]), out);
            assert(suffix.subrange(1, suffix.len() as int) =~= b.subrange(j + 1, b.len() as int));
            assert(split_step(suffix, 0, acc, out) == split_step(suffix, 1, acc.push(b[j]), out));
            lemma_split_shift(suffix, 1, acc.push(b[j]), out);
        }
    }
}

/// Parsing the rendered form of canonical segments appends exactly those
/// segments to the output collected so far.
proof fn lemma_parse_render_segs(segs: Seq<Seq<u8>>, out: Seq<Seq<u8>>)
    requires
        forall|k: int| 0 <= k < segs.len() ==> seg_wf(#[trigger] segs[k]),
    ensures
        split_step(render_segs(segs), 0, Seq::empty(), out) == out + segs,
    decreases segs.len(),
{
    let b = render_segs(segs);
    if segs.len() == 0 {
        assert(out + segs =~= out);
    } else if segs.len() == 1 {
        assert(b == segs[0]);
        lemma_split_nonsep(b, 0, b.len() as int, Seq::empty(), out);
        assert(Seq::<u8>::empty() + b.subrange(0, b.len() as int) =~= segs[0]);
        assert(split_step(b, b.len() as int, segs[0], out) == out.push(segs[0]));
        assert(out.push(segs[0]) =~= out + segs);
    } else {
        let head = segs[0];
        let rest = segs.drop_first();
        let tail = render_segs(rest);
        assert(b == head + seq![SEPARATOR] + tail);
        let hl = head.len() as int;
        assert forall|t: int| 0 <= t < hl implies b[t] != SEPARATOR by {
            assert(b[t] == head[t]);
        }
        lemma_split_nonsep(b, 0, hl, Seq::empty(), out);
        assert(Seq::<u8>::empty() + b.subrange(0, hl) =~= head);
        assert(b[hl] == SEPARATOR);
        assert(split_step(b, hl, head, out) == split_step(b, hl + 1, Seq::empty(), out.push(head)));
        lemma_split_shift(b, hl + 1, Seq::empty(), out.push(head));
        assert(b.subrange(hl + 1, b.len() as int) =~= tail);
        assert forall|k: int| 0 <= k < rest.len() implies seg_wf(#[trigger] rest[k]) by {
            assert(rest[k] == segs[k + 1]);
        }
        lemma_parse_render_segs(rest, out.push(head));
        assert(out.push(head) + rest =~= out + segs);
    }
}

/// Law: parsing undoes rendering. The textual form of a canonical handle
/// parses back to the same absolute flag and the same segments, so a path
/// survives a render-and-reparse round trip.
pub proof fn lemma_render_round_trip(absolute: bool, segs: Seq<Seq<u8>>)
    requires
        forall|k: int| 0 <= k < segs.len() ==> seg_wf(#[trigger] segs[k]),
    ensures
        segments_of(render_path(absolute, segs)) == segs,
        absolute_of(render_path(absolute, segs)) == absolute,
    decreases segs.len(),
{
    let b = render_path(absolute, segs);
    if absolute {
        assert(b[0] == SEPARATOR);
        assert(split_step(b, 0, Seq::empty(), Seq::empty()) == split_step(
            b,
            1,
            Seq::empty(),
            Seq::empty(),
        ));
        lemma_split_shift(b, 1, Seq::empty(), Seq::empty());
        assert(b.subrange(1, b.len() as int) =~= render_segs(segs));
        lemma_parse_render_segs(segs, Seq::empty());
        assert(Seq::<Seq<u8>>::empty() + segs =~= segs);
    } else {
        lemma_parse_render_segs(segs, Seq::empty());
        assert(Seq::<Seq<u8>>::empty() + segs =~= segs);
        if segs.len() > 0 {
            assert(seg_wf(segs[0]));
            assert(b[0] == segs[0][0]);
        }
    }
}

/// Rendering appends one segment at a time: a further segment joins with a
/// separator, except onto an empty path.
proof fn lemma_render_segs_push(segs: Seq<Seq<u8>>, x: Seq<u8>)
    ensures
        render_segs(segs.push(x)) == if segs.len() == 0 {
            x
        } else {
            render_segs(segs) + seq![SEPARATOR] + x
        },
    decreases segs.len(),
{
    let pushed = segs.push(x);
    if segs.len() == 0 {
        assert(pushed.len() == 1);
        assert(pushed[0] == x);
    } else if segs.len() == 1 {
        assert(pushed[0] == segs[0]);
        assert(pushed.drop_first() =~= seq![x]);
        assert(render_segs(seq![x]) == x);
    } else {
        assert(pushed[0] == segs[0]);
        assert(pushed.drop_first() =~= segs.drop_first().push(x));
        lemma_render_segs_push(segs.drop_first(), x);
        assert(segs[0] + seq![SEPARATOR] + (render_segs(segs.drop_first()) + seq![SEPARATOR] + x)
            =~= (segs[0] + seq![SEPARATOR] + render_segs(segs.drop_first())) + seq![SEPARATOR]
            + x);
    }
}

/// Whether the path with segments `anc` is the path with segments `k` or
/// one of its ancestors.
pub open spec fn is_under(anc: Seq<Seq<u8>>, k: Seq<Seq<u8>>) -> bool {
    anc.len() <= k.len() && k.subrange(0, anc.len() as int) == anc
}

/// Being-under is transitive.
pub proof fn lemma_under_trans(a: Seq<Seq<u8>>, b: Seq<Seq<u8>>, c: Seq<Seq<u8>>)
    requires
        is_under(a, b),
        is_under(b, c),
    ensures
        is_under(a, c),
{
    assert(c.subrange(0, a.len() as int) =~= c.subrange(0, b.len() as int).subrange(
        0,
        a.len() as int,
    ));
}

/// A strict descendant's parent is still under the same ancestor.
pub proof fn lemma_under_parent(a: Seq<Seq<u8>>, k: Seq<Seq<u8>>)
    requires
        is_under(a, k),
        a.len() < k.len(),
    ensures
        is_under(a, k.drop_last()),
{
    assert(k.drop_last().subrange(0, a.len() as int) =~= k.subrange(0, a.len() as int));
}

/// Every key is under its own parent.
pub proof fn lemma_parent_under(k: Seq<Seq<u8>>)
    requires
        k.len() > 0,
    ensures
        is_under(k.drop_last(), k),
{
    assert(k.subrange(0, k.len() - 1) =~= k.drop_last());
}

/// A handle for a filesystem path, holding its canonical form.
///
/// Construction from any path-like value yields handles that compare equal
/// whenever the paths do; cloning copies the canonical form.
#[derive(Debug, Eq, Hash)]
pub struct PathId {
    /// Whether the path is absolute.
    pub absolute: bool,
    /// The canonical segments, root first; never empty byte strings when the
    /// handle was built by [`PathId::from`].
    pub segments: Vec<Vec<u8>>,
}

/// Copy a byte vector, preserving its contents.
pub fn clone_bytes(v: &Vec<u8>) -> (r: Vec<u8>)
    ensures
        r@ == v@,
{
    let mut r: Vec<u8> = Vec::new();
    let mut i: usize = 0;
    while i < v.len()
        invariant
            i <= v.len(),
            r@ == v@.subrange(0, i as int),
        decreases v.len() - i,
    {
        r.push(v[i]);
        i = i + 1;
        proof {
            assert(r@ =~= v@.subrange(0, i as int));
        }
    }
    proof {
        assert(r@ =~= v@);
    }
    r
}

/// The deep view of a byte vector is its ordinary view.
pub proof fn lemma_bytes_deep_view(v: &Vec<u8>)
    ensures
        v.deep_view() == v@,
{
    assert(v.deep_view() =~= v@);
}

impl PathId {
    /// The canonical segments, as the mathematical key this path stands for.
    pub open spec fn key(&self) -> Seq<Seq<u8>> {
        self.segments.deep_view()
    }

    /// Build a handle from the canonical parts of a path given as bytes.
    pub fn from_bytes(bytes: &Vec<u8>) -> (r: Self)
        ensures
            r.absolute == absolute_of(bytes@),
            r.key() == segments_of(bytes@),
    {
        let absolute = bytes.len() > 0 && bytes[0] == SEPARATOR;
        let mut segments: Vec<Vec<u8>> = Vec::new();
        let mut acc: Vec<u8> = Vec::new();
        let mut i: usize = 0;
        proof {
            assert(acc@ =~= Seq::<u8>::empty());
            assert(segments.deep_view() =~= Seq::<Seq<u8>>::empty());
        }
        while i < bytes.len()
            invariant
                i <= bytes.len(),
                segments_of(bytes@) == split_step(
                    bytes@,
                    i as int,
                    acc@,
                    segments.deep_view(),
                ),
            decreases bytes.len() - i,
        {
            let ghost prev_segments = segments.deep_view();
            let ghost prev_acc = acc@;
            let byte = bytes[i];
            if byte == SEPARATOR {
                if acc.len() > 0 {
                    segments.push(acc);
                    acc = Vec::new();
                    proof {
                        lemma_bytes_deep_view(&segments[segments.len() - 1]);
                        assert(segments.deep_view() =~= prev_segments.push(prev_acc));
                    }
                } else {
                    proof {
                        assert(acc@ =~= Seq::<u8>::empty());
                    }
                }
            } else {
                acc.push(byte);
            }
            i = i + 1;
        }
        if acc.len() > 0 {
            let ghost prev_segments = segments.deep_view();
            let ghost prev_acc = acc@;
            segments.push(acc);
            proof {
                lemma_bytes_deep_view(&segments[segments.len() - 1]);
                assert(segments.deep_view() =~= prev_segments.push(prev_acc));
            }
        }
        PathId { absolute, segments }
    }

    /// Build a handle from a path written as a string.
    pub fn from(path: &str) -> (r: Self)
        ensures
            r.absolute == absolute_of(path.spec_bytes()),
            r.key() == segments_of(path.spec_bytes()),
            forall|k: int| 0 <= k < r.key().len() ==> seg_wf(#[trigger] r.key()[k]),
    {
        proof {
            lemma_segments_canonical(path.spec_bytes());
        }
        let bytes = path.as_bytes_vec();
        Self::from_bytes(&bytes)
    }

    /// Whether the path is absolute.
    pub fn is_absolute(&self) -> (r: bool)
        ensures
            r == self.absolute,
    {
        self.absolute
    }

    /// The parent path: the same path with its last segment dropped, when
    /// one exists.
    pub fn parent(&self) -> (r: Option<Self>)
        ensures
            match r {
                Some(p) => self.key().len() > 0 && p.absolute == self.absolute && p.key()
                    == self.key().drop_last(),
                None => self.key().len() == 0,
            },
    {
        if self.segments.len() == 0 {
            None
        } else {
            let mut segments: Vec<Vec<u8>> = Vec::new();
            let n = self.segments.len() - 1;
            let mut i: usize = 0;
            while i < n
                invariant
                    i <= n,
                    n == self.segments.len() - 1,
                    segments.deep_view() =~= self.key().subrange(0, i as int),
                decreases n - i,
            {
                let ghost prev = segments.deep_view();
                segments.push(clone_bytes(&self.segments[i]));
                i = i + 1;
                proof {
                    lemma_bytes_deep_view(&segments[segments.len() - 1]);
                    assert(segments.deep_view() =~= prev.push(self.key()[i - 1]));
                    assert(segments.deep_view() =~= self.key().subrange(0, i as int));
                }
            }
            proof {
                assert(self.key().subrange(0, n as int) =~= self.key().drop_last());
            }
            Some(PathId { absolute: self.absolute, segments })
        }
    }

    /// The path's textual form as bytes: a leading separator when absolute,
    /// then the segments joined by separators. For a handle built by
    /// [`PathId::from`], parsing the rendered bytes gives the handle back.
    pub fn render(&self) -> (r: Vec<u8>)
        ensures
            r@ == render_path(self.absolute, self.key()),
    {
        let mut out: Vec<u8> = Vec::new();
        if self.absolute {
            out.push(SEPARATOR);
        }
        let ghost lead: Seq<u8> = if self.absolute {
            seq![SEPARATOR]
        } else {
            Seq::empty()
        };
        proof {
            assert(out@ =~= lead + render_segs(self.key().take(0)));
        }
        let mut i: usize = 0;
        while i < self.segments.len()
            invariant
                i <= self.segments@.len(),
                lead == if self.absolute {
                    seq![SEPARATOR]
                } else {
                    Seq::<u8>::empty()
                },
                out@ == lead + render_segs(self.key().take(i as int)),
            decreases self.segments@.len() - i,
        {
            let ghost before = self.key().take(i as int);
            if i > 0 {
                out.push(SEPARATOR);
            }
            let mut j: usize = 0;
            let ghost mid = out@;
            while j < self.segments[i].len()
                invariant
                    i < self.segments@.len(),
                    j <= self.segments@[i as int]@.len(),
                    out@ =~= mid + self.segments@[i as int]@.subrange(0, j as int),
                decreases self.segments@[i as int]@.len() - j,
            {
                out.push(self.segments[i][j]);
                j = j + 1;
                proof {
                    assert(out@ =~= mid + self.segments@[i as int]@.subrange(0, j as int));
                }
            }
            i = i + 1;
            proof {
                lemma_bytes_deep_view(&self.segments[i - 1]);
                assert(self.segments@[i - 1]@.subrange(0, self.segments@[i - 1]@.len() as int)
                    =~= self.key()[i - 1]);
                lemma_render_segs_push(before, self.key()[i - 1]);
                assert(self.key().take(i as int) =~= before.push(self.key()[i - 1]));
                if before.len() == 0 {
                    assert(out@ =~= lead + render_segs(self.key().take(i as int)));
                } else {
                    assert(out@ =~= lead + render_segs(self.key().take(i as int)));
                }
            }
        }
        proof {
            assert(self.key().take(self.key().len() as int) =~= self.key());
        }
        out
    }

    /// The number of segments.
    pub fn depth(&self) -> (r: usize)
        ensures
            r == self.key().len(),
    {
        self.segments.len()
    }

    /// The path made of this path's first `n` segments.
    pub fn truncated(&self, n: usize) -> (r: Self)
        requires
            n <= self.key().len(),
        ensures
            r.absolute == self.absolute,
            r.key() == self.key().subrange(0, n as int),
    {
        let mut segments: Vec<Vec<u8>> = Vec::new();
        let mut i: usize = 0;
        while i < n
            invariant
                i <= n,
                n <= self.segments.len(),
                segments.deep_view() =~= self.key().subrange(0, i as int),
            decreases n - i,
        {
            let ghost prev = segments.deep_view();
            segments.push(clone_bytes(&self.segments[i]));
            i = i + 1;
            proof {
                lemma_bytes_deep_view(&segments[segments.len() - 1]);
                assert(segments.deep_view() =~= prev.push(self.key()[i - 1]));
                assert(segments.deep_view() =~= self.key().subrange(0, i as int));
            }
        }
        PathId { absolute: self.absolute, segments }
    }

    /// Whether `anc` is this path or one of its ancestors, by segments.
    pub fn starts_with(&self, anc: &Self) -> (r: bool)
        ensures
            r == is_under(anc.key(), self.key()),
    {
        if anc.segments.len() > self.segments.len() {
            return false;
        }
        let mut i: usize = 0;
        while i < anc.segments.len()
            invariant
                i <= anc.segments@.len() <= self.segments@.len(),
                forall|j: int| 0 <= j < i ==> anc.key()[j] == self.key()[j],
            decreases anc.segments@.len() - i,
        {
            if !bytes_eq(&anc.segments[i], &self.segments[i]) {
                proof {
                    lemma_bytes_deep_view(&anc.segments[i as int]);
                    lemma_bytes_deep_view(&self.segments[i as int]);
                    assert(self.key().subrange(0, anc.key().len() as int)[i as int]
                        != anc.key()[i as int]);
                }
                return false;
            }
            proof {
                lemma_bytes_deep_view(&anc.segments[i as int]);
                lemma_bytes_deep_view(&self.segments[i as int]);
            }
            i = i + 1;
        }
        proof {
            assert(self.key().subrange(0, anc.key().len() as int) =~= anc.key());
        }
        true
    }

    /// Append further path text to this path: the result keeps this path's
    /// segments followed by the canonical segments of `more`.
    pub fn join(&self, more: &str) -> (r: Self)
        ensures
            r.absolute == self.absolute,
            r.key() == self.key() + segments_of(more.spec_bytes()),
    {
        let tail = Self::from(more);
        let mut segments: Vec<Vec<u8>> = Vec::new();
        let mut i: usize = 0;
        while i < self.segments.len()
            invariant
                i <= self.segments.len(),
                segments.deep_view() =~= self.key().subrange(0, i as int),
            decreases self.segments.len() - i,
        {
            let ghost prev = segments.deep_view();
            segments.push(clone_bytes(&self.segments[i]));
            i = i + 1;
            proof {
                lemma_bytes_deep_view(&segments[segments.len() - 1]);
                assert(segments.deep_view() =~= prev.push(self.key()[i - 1]));
                assert(segments.deep_view() =~= self.key().subrange(0, i as int));
            }
        }
        proof {
            assert(segments.deep_view() =~= self.key());
        }
        let mut j: usize = 0;
        while j < tail.segments.len()
            invariant
                j <= tail.segments.len(),
                segments.deep_view() =~= self.key() + tail.key().subrange(0, j as int),
            decreases tail.segments.len() - j,
        {
            let ghost prev = segments.deep_view();
            segments.push(clone_bytes(&tail.segments[j]));
            j = j + 1;
            proof {
                lemma_bytes_deep_view(&segments[segments.len() - 1]);
                assert(segments.deep_view() =~= prev.push(tail.key()[j - 1]));
                assert(segments.deep_view() =~= self.key() + tail.key().subrange(0, j as int));
            }
        }
        proof {
            assert(tail.key().subrange(0, tail.key().len() as int) =~= tail.key());
        }
        PathId { absolute: self.absolute, segments }
    }
}

impl Clone for PathId {
    /// Cloning preserves the canonical form, so the clone compares equal.
    fn clone(&self) -> (r: Self)
        ensures
            r.absolute == self.absolute,
            r.key() == self.key(),
    {
        let mut segments: Vec<Vec<u8>> = Vec::new();
        let mut i: usize = 0;
        while i < self.segments.len()
            invariant
                i <= self.segments.len(),
                segments.deep_view() =~= self.key().subrange(0, i as int),
            decreases self.segments.len() - i,
        {
            let ghost prev = segments.deep_view();
            segments.push(clone_bytes(&self.segments[i]));
            i = i + 1;
            proof {
                lemma_bytes_deep_view(&segments[segments.len() - 1]);
                assert(segments.deep_view() =~= prev.push(self.key()[i - 1]));
                assert(segments.deep_view() =~= self.key().subrange(0, i as int));
            }
        }
        proof {
            assert(segments.deep_view() =~= self.key());
        }
        PathId { absolute: self.absolute, segments }
    }
}

impl PartialEq for PathId {
    /// Equality on the canonical form: the absolute flag and the segments.
    fn eq(&self, other: &Self) -> (r: bool) {
        if self.absolute != other.absolute {
            return false;
        }
        if self.segments.len() != other.segments.len() {
            proof {
                assert(self.key().len() != other.key().len());
            }
            return false;
        }
        let mut i: usize = 0;
        while i < self.segments.len()
            invariant
                i <= self.segments.len(),
                self.segments.len() == other.segments.len(),
                self.absolute == other.absolute,
                forall|k: int| 0 <= k < i ==> self.key()[k] == other.key()[k],
            decreases self.segments.len() - i,
        {
            if !bytes_eq(&self.segments[i], &other.segments[i]) {
                proof {
                    lemma_bytes_deep_view(&self.segments[i as int]);
                    lemma_bytes_deep_view(&other.segments[i as int]);
                    assert(self.key()[i as int] != other.key()[i as int]);
                }
                return false;
            }
            proof {
                lemma_bytes_deep_view(&self.segments[i as int]);
                lemma_bytes_deep_view(&other.segments[i as int]);
            }
            i = i + 1;
        }
        proof {
            assert(self.key() =~= other.key());
        }
        true
    }
}

impl vstd::std_specs::cmp::PartialEqSpecImpl for PathId {
    open spec fn obeys_eq_spec() -> bool {
        true
    }

    open spec fn eq_spec(&self, other: &Self) -> bool {
        self.absolute == other.absolute && self.key() == other.key()
    }
}

/// Whether two byte vectors hold the same bytes.
pub fn bytes_eq(a: &Vec<u8>, b: &Vec<u8>) -> (r: bool)
    ensures
        r == (a@ == b@),
{
    if a.len() != b.len() {
        return false;
    }
    let mut i: usize = 0;
    while i < a.len()
        invariant
            i <= a.len(),
            a.len() == b.len(),
            forall|k: int| 0 <= k < i ==> a@[k] == b@[k],
        decreases a.len() - i,
    {
        if a[i] != b[i] {
            return false;
        }
        i = i + 1;
    }
    proof {
        assert(a@ =~= b@);
    }
    true
}

} // verus!
