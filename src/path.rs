use vstd::prelude::*;

verus! {

/// The segments of a slash-separated byte path, in order. A path without a
/// slash is one segment; consecutive slashes give empty segments.
pub open spec fn split_spec(p: Seq<u8>) -> Seq<Seq<u8>>
    decreases p.len(),
{
    if p.len() == 0 {
        seq![Seq::<u8>::empty()]
    } else {
        let prev = split_spec(p.drop_last());
        if p.last() == 47u8 {
            prev.push(Seq::<u8>::empty())
        } else {
            prev.update(prev.len() - 1, prev.last().push(p.last()))
        }
    }
}

/// A segment that names something: not empty and not `.`.
pub open spec fn is_named(s: Seq<u8>) -> bool {
    s.len() > 0 && s != seq![46u8]
}

/// The named segments of `segs`, in order: empty segments (from repeated,
/// leading or trailing slashes) and `.` segments are dropped.
pub open spec fn normalize(segs: Seq<Seq<u8>>) -> Seq<Seq<u8>>
    decreases segs.len(),
{
    if segs.len() == 0 {
        Seq::empty()
    } else {
        let prev = normalize(segs.drop_last());
        if is_named(segs.last()) {
            prev.push(segs.last())
        } else {
            prev
        }
    }
}

/// The path of an entry relative to the archive's top directory, from the
/// segments of its full path: the first named segment names that directory,
/// which the tree's root stands for. A path with one named segment is kept
/// whole, and one with none becomes a single empty segment.
pub open spec fn relative_spec(segs: Seq<Seq<u8>>) -> Seq<Seq<u8>> {
    let n = normalize(segs);
    if n.len() > 1 {
        n.drop_first()
    } else if n.len() == 1 {
        n
    } else {
        seq![Seq::<u8>::empty()]
    }
}

/// The byte views of a list of segments.
pub open spec fn segs_view(v: Seq<Vec<u8>>) -> Seq<Seq<u8>> {
    v.map_values(|s: Vec<u8>| s@)
}

/// Splits a byte path at each `/`.
pub fn split_path(p: &Vec<u8>) -> (r: Vec<Vec<u8>>)
    ensures
        segs_view(r@) == split_spec(p@),
        r@.len() >= 1,
{
    let mut out: Vec<Vec<u8>> = Vec::new();
    let mut cur: Vec<u8> = Vec::new();
    let mut i: usize = 0;
    while i < p.len()
        invariant
            0 <= i <= p@.len(),
            segs_view(out@).push(cur@) == split_spec(p@.take(i as int)),
        decreases p@.len() - i,
    {
        let b = p[i];
        proof {
            assert(p@.take(i as int + 1).drop_last() =~= p@.take(i as int));
        }
        if b == 47u8 {
            let seg = cur;
            out.push(seg);
            cur = Vec::new();
            assert(segs_view(out@).push(cur@) =~= split_spec(p@.take(i as int + 1)));
        } else {
            cur.push(b);
            assert(segs_view(out@).push(cur@) =~= split_spec(p@.take(i as int + 1)));
        }
        i = i + 1;
    }
    out.push(cur);
    assert(p@.take(p@.len() as int) =~= p@);
    assert(segs_view(out@) =~= split_spec(p@));
    out
}

/// Whether segment `s` names something (see `is_named`).
pub fn segment_is_named(s: &Vec<u8>) -> (r: bool)
    ensures
        r == is_named(s@),
{
    if s.len() == 0 {
        false
    } else if s.len() == 1 && s[0] == 46u8 {
        assert(s@ =~= seq![46u8]);
        false
    } else {
        assert(s@.len() != 1 ==> s@ != seq![46u8]);
        true
    }
}

/// Keeps the named segments of `segs`, in order.
pub fn normalize_segments(segs: Vec<Vec<u8>>) -> (r: Vec<Vec<u8>>)
    ensures
        segs_view(r@) == normalize(segs_view(segs@)),
{
    let mut out: Vec<Vec<u8>> = Vec::new();
    let mut i: usize = 0;
    let ghost v = segs_view(segs@);
    while i < segs.len()
        invariant
            0 <= i <= segs@.len(),
            v == segs_view(segs@),
            segs_view(out@) == normalize(v.take(i as int)),
        decreases segs@.len() - i,
    {
        assert(v.take(i as int + 1).drop_last() =~= v.take(i as int));
        assert(v.take(i as int + 1).last() == segs@[i as int]@);
        if segment_is_named(&segs[i]) {
            out.push(segs[i].clone());
            assert(segs_view(out@) =~= normalize(v.take(i as int)).push(segs@[i as int]@));
        }
        i = i + 1;
    }
    assert(v.take(v.len() as int) =~= v);
    out
}

/// The segments of an entry path below the tree's root (see `relative_spec`).
pub fn entry_segments(p: &Vec<u8>) -> (r: Vec<Vec<u8>>)
    ensures
        segs_view(r@) == relative_spec(split_spec(p@)),
        r@.len() >= 1,
{
    let segs = split_path(p);
    let mut n = normalize_segments(segs);
    if n.len() > 1 {
        n.remove(0);
        assert(segs_view(n@) =~= normalize(split_spec(p@)).drop_first());
    } else if n.len() == 0 {
        n.push(Vec::new());
        assert(segs_view(n@) =~= seq![Seq::<u8>::empty()]);
    }
    n
}

} // verus!
