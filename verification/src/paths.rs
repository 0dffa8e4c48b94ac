//! Paths as sequences of segments.
//!
//! A path is read as the non-empty pieces between its separators. A piece
//! that is a single dot stands for the directory it is met in and is skipped;
//! the pieces that are left are the segments. Two texts with the same
//! segments name the same place, so everything derived from a path is
//! derived from its segments.

use vstd::prelude::*;
use vstd::string::*;

verus! {

/// The character that separates the segments of a path.
pub open spec fn separator() -> char {
    '/'
}

/// A piece is a non-empty text without a separator.
pub open spec fn is_piece(s: Seq<char>) -> bool {
    &&& s.len() > 0
    &&& forall|i: int| 0 <= i < s.len() ==> s[i] != separator()
}

/// Every member is a piece.
pub open spec fn all_pieces(segs: Seq<Seq<char>>) -> bool {
    forall|i: int| 0 <= i < segs.len() ==> is_piece(#[trigger] segs[i])
}

/// The piece that stands for the directory it is met in.
pub open spec fn dot() -> Seq<char> {
    seq!['.']
}

/// A segment is a piece other than the single dot.
pub open spec fn is_segment(s: Seq<char>) -> bool {
    is_piece(s) && s != dot()
}

/// Every member is a segment.
pub open spec fn all_segments(segs: Seq<Seq<char>>) -> bool {
    forall|i: int| 0 <= i < segs.len() ==> is_segment(#[trigger] segs[i])
}

/// The pieces of a path, read one character at a time: a separator closes
/// the piece before it, any other character opens a piece or extends the
/// open one.
pub open spec fn pieces(s: Seq<char>) -> Seq<Seq<char>>
    decreases s.len(),
{
    if s.len() == 0 {
        Seq::empty()
    } else {
        let before = s.drop_last();
        let earlier = pieces(before);
        if s.last() == separator() {
            earlier
        } else if before.len() == 0 || before.last() == separator() {
            earlier.push(seq![s.last()])
        } else {
            earlier.drop_last().push(earlier.last().push(s.last()))
        }
    }
}

/// The segments written out with one separator between neighbours.
pub open spec fn joined(segs: Seq<Seq<char>>) -> Seq<char>
    decreases segs.len(),
{
    if segs.len() == 0 {
        Seq::empty()
    } else if segs.len() == 1 {
        segs[0]
    } else {
        joined(segs.drop_last()) + seq![separator()] + segs.last()
    }
}

/// The pieces that are segments, in their order.
pub open spec fn named(ps: Seq<Seq<char>>) -> Seq<Seq<char>>
    decreases ps.len(),
{
    if ps.len() == 0 {
        Seq::empty()
    } else if ps.last() == dot() {
        named(ps.drop_last())
    } else {
        named(ps.drop_last()).push(ps.last())
    }
}

/// The segments of a path: its pieces but the single dots.
pub open spec fn segments(s: Seq<char>) -> Seq<Seq<char>> {
    named(pieces(s))
}

/// A path is absolute when it starts with a separator.
pub open spec fn is_absolute(s: Seq<char>) -> bool {
    s.len() > 0 && s[0] == separator()
}

/// The texts held by a vector of strings.
pub open spec fn texts(v: Seq<String>) -> Seq<Seq<char>> {
    Seq::new(v.len(), |i: int| v[i]@)
}

/// While a path is read, the pieces so far are the closed ones followed by
/// the open one, if any.
pub open spec fn reading(s: Seq<char>, closed: Seq<Seq<char>>, start: int, at: int) -> bool {
    &&& 0 <= start <= at <= s.len()
    &&& (start == 0 || s[start - 1] == separator())
    &&& forall|j: int| start <= j < at ==> s[j] != separator()
    &&& pieces(s.take(at)) == if start < at {
        closed.push(s.subrange(start, at))
    } else {
        closed
    }
}

proof fn lemma_reading_step(s: Seq<char>, closed: Seq<Seq<char>>, start: int, at: int)
    requires
        reading(s, closed, start, at),
        at < s.len(),
    ensures
        s[at] != separator() ==> reading(s, closed, start, at + 1),
        s[at] == separator() && start < at ==> reading(
            s,
            closed.push(s.subrange(start, at)),
            at + 1,
            at + 1,
        ),
        s[at] == separator() && start == at ==> reading(s, closed, at + 1, at + 1),
{
    let whole = s.take(at + 1);
    let before = s.take(at);
    assert(whole.drop_last() == before);
    assert(whole.last() == s[at]);
    if s[at] != separator() {
        if start < at {
            assert(before.last() == s[at - 1]);
            assert(s.subrange(start, at).push(s[at]) == s.subrange(start, at + 1));
            assert(closed.push(s.subrange(start, at)).drop_last() == closed);
        } else {
            assert(seq![s[at]] == s.subrange(start, at + 1));
        }
    }
}

/// Tells whether the path starts at the root of the file system.
pub fn starts_at_root(path: &str) -> (r: bool)
    ensures
        r == is_absolute(path@),
{
    path.unicode_len() > 0 && path.get_char(0) == '/'
}

/// Splits a path into its pieces.
fn split_pieces(path: &str) -> (r: Vec<String>)
    ensures
        texts(r@) == pieces(path@),
{
    let n = path.unicode_len();
    let mut closed: Vec<String> = Vec::new();
    let mut start: usize = 0;
    let mut at: usize = 0;
    proof {
        assert(path@.take(0) == Seq::<char>::empty());
        assert(texts(closed@) == Seq::<Seq<char>>::empty());
    }
    while at < n
        invariant
            n == path@.len(),
            reading(path@, texts(closed@), start as int, at as int),
        decreases n - at,
    {
        let c = path.get_char(at);
        proof {
            lemma_reading_step(path@, texts(closed@), start as int, at as int);
        }
        if c == '/' {
            if start < at {
                let ghost before = texts(closed@);
                let piece = path.substring_char(start, at).to_owned();
                closed.push(piece);
                assert(texts(closed@) == before.push(path@.subrange(start as int, at as int)));
            }
            start = at + 1;
        }
        at = at + 1;
    }
    if start < at {
        let ghost before = texts(closed@);
        let piece = path.substring_char(start, at).to_owned();
        closed.push(piece);
        assert(texts(closed@) == before.push(path@.subrange(start as int, at as int)));
    }
    assert(path@.take(n as int) == path@);
    closed
}

/// Reading a separator after a text adds no piece.
pub proof fn lemma_pieces_after_separator(p: Seq<char>)
    ensures
        pieces(p.push(separator())) == pieces(p),
{
    assert(p.push(separator()).drop_last() == p);
}

/// Reading a whole piece after a text that ends in a separator, or after
/// nothing, adds that piece.
pub proof fn lemma_pieces_after_piece(p: Seq<char>, seg: Seq<char>)
    requires
        is_piece(seg),
        p.len() == 0 || p.last() == separator(),
    ensures
        pieces(p + seg) == pieces(p).push(seg),
    decreases seg.len(),
{
    let whole = p + seg;
    if seg.len() == 1 {
        assert(whole.drop_last() == p);
        assert(seq![seg[0]] == seg);
    } else {
        let shorter = seg.drop_last();
        assert(is_piece(shorter));
        lemma_pieces_after_piece(p, shorter);
        assert(whole.drop_last() == p + shorter);
        assert((p + shorter).last() == shorter.last());
        assert(shorter.push(seg.last()) == seg);
        assert(pieces(p).push(shorter).drop_last() == pieces(p));
    }
}

/// Splitting joined pieces gives the pieces back.
pub proof fn lemma_pieces_of_joined(segs: Seq<Seq<char>>)
    requires
        all_pieces(segs),
    ensures
        pieces(joined(segs)) == segs,
    decreases segs.len(),
{
    if segs.len() == 0 {
    } else if segs.len() == 1 {
        lemma_pieces_after_piece(Seq::empty(), segs[0]);
        assert(Seq::<char>::empty() + segs[0] == segs[0]);
        assert(Seq::<Seq<char>>::empty().push(segs[0]) == segs);
    } else {
        let init = segs.drop_last();
        assert(all_pieces(init));
        lemma_pieces_of_joined(init);
        let p = joined(init).push(separator());
        lemma_pieces_after_separator(joined(init));
        assert(joined(init) + seq![separator()] == p);
        lemma_pieces_after_piece(p, segs.last());
        assert(init.push(segs.last()) == segs);
    }
}

/// Reading joined pieces after a text that ends in a separator, or after
/// nothing, adds those pieces.
pub proof fn lemma_pieces_after_joined(p: Seq<char>, segs: Seq<Seq<char>>)
    requires
        all_pieces(segs),
        p.len() == 0 || p.last() == separator(),
    ensures
        pieces(p + joined(segs)) == pieces(p) + segs,
    decreases segs.len(),
{
    if segs.len() == 0 {
        assert(p + joined(segs) == p);
        assert(pieces(p) + segs == pieces(p));
    } else if segs.len() == 1 {
        lemma_pieces_after_piece(p, segs[0]);
        assert(pieces(p).push(segs[0]) == pieces(p) + segs);
    } else {
        let init = segs.drop_last();
        assert(all_pieces(init));
        lemma_pieces_after_joined(p, init);
        let q = (p + joined(init)).push(separator());
        lemma_pieces_after_separator(p + joined(init));
        lemma_pieces_after_piece(q, segs.last());
        assert(q + segs.last() == p + joined(segs));
        assert((pieces(p) + init).push(segs.last()) == pieces(p) + segs);
    }
}

/// What is joined from pieces starts with no separator.
pub proof fn lemma_joined_pieces_relative(segs: Seq<Seq<char>>)
    requires
        all_pieces(segs),
    ensures
        !is_absolute(joined(segs)),
    decreases segs.len(),
{
    if segs.len() > 1 {
        let init = segs.drop_last();
        assert(all_pieces(init));
        lemma_joined_pieces_relative(init);
        lemma_joined_not_empty(init);
    } else if segs.len() == 1 {
        assert(is_piece(segs[0]));
    }
}

/// Pieces joined are no empty text.
proof fn lemma_joined_not_empty(segs: Seq<Seq<char>>)
    requires
        all_pieces(segs),
        segs.len() > 0,
    ensures
        joined(segs).len() > 0,
{
    assert(is_piece(segs.last()));
    if segs.len() == 1 {
        assert(segs[0] == segs.last());
    }
}

/// Whatever the text, what it splits into are pieces.
pub proof fn lemma_pieces_are_pieces(s: Seq<char>)
    ensures
        all_pieces(pieces(s)),
    decreases s.len(),
{
    if s.len() > 0 {
        let before = s.drop_last();
        lemma_pieces_are_pieces(before);
        let earlier = pieces(before);
        if s.last() == separator() {
        } else if before.len() == 0 || before.last() == separator() {
            assert(is_piece(seq![s.last()]));
        } else {
            lemma_open_piece(before);
            assert(is_piece(earlier.last().push(s.last())));
        }
    }
}

/// A text that ends in no separator ends in an open piece.
proof fn lemma_open_piece(s: Seq<char>)
    requires
        s.len() > 0,
        s.last() != separator(),
    ensures
        pieces(s).len() > 0,
    decreases s.len(),
{
    let before = s.drop_last();
    if before.len() > 0 && before.last() != separator() {
        lemma_open_piece(before);
    }
}

/// Two lists of pieces that are written the same are the same.
pub proof fn lemma_joined_pieces_injective(a: Seq<Seq<char>>, b: Seq<Seq<char>>)
    requires
        all_pieces(a),
        all_pieces(b),
        joined(a) == joined(b),
    ensures
        a == b,
{
    lemma_pieces_of_joined(a);
    lemma_pieces_of_joined(b);
}

/// Writes the segments `from..to` with a separator between neighbours.
pub fn join_range(segs: &Vec<String>, from: usize, to: usize) -> (r: String)
    requires
        from <= to <= segs.len(),
    ensures
        r@ == joined(texts(segs@).subrange(from as int, to as int)),
{
    let mut out = String::new();
    let mut i: usize = from;
    proof {
        reveal_strlit("/");
        assert(texts(segs@).subrange(from as int, from as int) == Seq::<Seq<char>>::empty());
    }
    while i < to
        invariant
            from <= i <= to <= segs.len(),
            "/"@ == seq![separator()],
            out@ == joined(texts(segs@).subrange(from as int, i as int)),
        decreases to - i,
    {
        let ghost next = texts(segs@).subrange(from as int, i + 1);
        proof {
            assert(next.drop_last() == texts(segs@).subrange(from as int, i as int));
            assert(next.last() == segs@[i as int]@);
        }
        if i > from {
            out.append("/");
        }
        out.append(segs[i].as_str());
        i = i + 1;
    }
    out
}

/// Tells whether `head` is the beginning of `whole`, segment by segment.
pub fn starts_with_segments(whole: &Vec<String>, head: &Vec<String>) -> (r: bool)
    ensures
        r == texts(head@).is_prefix_of(texts(whole@)),
{
    if head.len() > whole.len() {
        return false;
    }
    let mut i: usize = 0;
    while i < head.len()
        invariant
            i <= head.len() <= whole.len(),
            forall|j: int| 0 <= j < i ==> head@[j]@ == whole@[j]@,
        decreases head.len() - i,
    {
        if head[i] != whole[i] {
            assert(texts(head@)[i as int] != texts(whole@).subrange(0, head.len() as int)[i as int]);
            return false;
        }
        i = i + 1;
    }
    assert(texts(head@) =~= texts(whole@).subrange(0, head.len() as int));
    true
}

/// Skipping the dots of two lists in a row is skipping them in each.
pub proof fn lemma_named_in_two_runs(a: Seq<Seq<char>>, b: Seq<Seq<char>>)
    ensures
        named(a + b) == named(a) + named(b),
    decreases b.len(),
{
    if b.len() == 0 {
        assert(a + b == a);
        assert(named(a) + named(b) == named(a));
    } else {
        lemma_named_in_two_runs(a, b.drop_last());
        assert((a + b).drop_last() == a + b.drop_last());
        assert((a + b).last() == b.last());
        if b.last() != dot() {
            assert((named(a) + named(b.drop_last())).push(b.last()) == named(a) + named(
                b.drop_last(),
            ).push(b.last()));
        }
    }
}

/// Among segments there is no dot to skip.
pub proof fn lemma_named_of_segments(segs: Seq<Seq<char>>)
    requires
        all_segments(segs),
    ensures
        named(segs) == segs,
    decreases segs.len(),
{
    if segs.len() > 0 {
        let init = segs.drop_last();
        assert(all_segments(init));
        lemma_named_of_segments(init);
        assert(is_segment(segs.last()));
        assert(init.push(segs.last()) == segs);
    }
}

/// The pieces that are left when the dots are skipped are segments.
pub proof fn lemma_named_are_segments(ps: Seq<Seq<char>>)
    requires
        all_pieces(ps),
    ensures
        all_segments(named(ps)),
    decreases ps.len(),
{
    if ps.len() > 0 {
        let init = ps.drop_last();
        assert(all_pieces(init));
        lemma_named_are_segments(init);
        assert(is_piece(ps.last()));
    }
}

/// Reading a separator after a text adds no segment.
pub proof fn lemma_segments_after_separator(p: Seq<char>)
    ensures
        segments(p.push(separator())) == segments(p),
{
    lemma_pieces_after_separator(p);
}

/// Reading joined segments after a text that ends in a separator, or after
/// nothing, adds those segments.
pub proof fn lemma_segments_after_joined(p: Seq<char>, segs: Seq<Seq<char>>)
    requires
        all_segments(segs),
        p.len() == 0 || p.last() == separator(),
    ensures
        segments(p + joined(segs)) == segments(p) + segs,
{
    assert(all_pieces(segs));
    lemma_pieces_after_joined(p, segs);
    lemma_named_in_two_runs(pieces(p), segs);
    lemma_named_of_segments(segs);
}

/// Splitting what was joined gives the segments back.
pub proof fn lemma_segments_of_joined(segs: Seq<Seq<char>>)
    requires
        all_segments(segs),
    ensures
        segments(joined(segs)) == segs,
{
    assert(all_pieces(segs));
    lemma_pieces_of_joined(segs);
    lemma_named_of_segments(segs);
}

/// Whatever the text, what it splits into are segments.
pub proof fn lemma_segments_are_segments(s: Seq<char>)
    ensures
        all_segments(segments(s)),
{
    lemma_pieces_are_pieces(s);
    lemma_named_are_segments(pieces(s));
}

/// Two lists of segments that are written the same are the same.
pub proof fn lemma_joined_injective(a: Seq<Seq<char>>, b: Seq<Seq<char>>)
    requires
        all_segments(a),
        all_segments(b),
        joined(a) == joined(b),
    ensures
        a == b,
{
    lemma_segments_of_joined(a);
    lemma_segments_of_joined(b);
}

/// What is joined from segments starts with no separator.
pub proof fn lemma_joined_is_relative(segs: Seq<Seq<char>>)
    requires
        all_segments(segs),
    ensures
        !is_absolute(joined(segs)),
{
    assert(all_pieces(segs));
    lemma_joined_pieces_relative(segs);
}

/// Splits a path into its segments: the pieces between the separators but
/// the single dots.
pub fn split_segments(path: &str) -> (r: Vec<String>)
    ensures
        texts(r@) == segments(path@),
{
    let all = split_pieces(path);
    let skipped = ".".to_owned();
    proof {
        reveal_strlit(".");
        assert(skipped@ =~= dot());
        assert(texts(all@).take(0) =~= Seq::<Seq<char>>::empty());
    }
    let mut out: Vec<String> = Vec::new();
    let mut i: usize = 0;
    while i < all.len()
        invariant
            i <= all.len(),
            skipped@ == dot(),
            texts(out@) == named(texts(all@).take(i as int)),
        decreases all.len() - i,
    {
        let ghost upto = texts(all@).take(i + 1);
        proof {
            assert(upto.drop_last() =~= texts(all@).take(i as int));
            assert(upto.last() == all@[i as int]@);
        }
        if all[i] != skipped {
            let ghost before = texts(out@);
            out.push(all[i].clone());
            assert(texts(out@) =~= before.push(all@[i as int]@));
        }
        i = i + 1;
    }
    assert(texts(all@).take(all.len() as int) =~= texts(all@));
    out
}

} // verus!
