use vstd::prelude::*;

verus! {

/// The pieces of `s` between occurrences of `sep`, in order; the separators
/// themselves are not kept. An empty sequence has one empty piece, and a
/// sequence ending in `sep` ends with an empty piece.
pub open spec fn split_on<T>(s: Seq<T>, sep: T) -> Seq<Seq<T>>
    decreases s.len(),
{
    if s.len() == 0 {
        seq![Seq::empty()]
    } else {
        let prev = split_on(s.drop_last(), sep);
        if s.last() == sep {
            prev.push(Seq::empty())
        } else {
            prev.update(prev.len() - 1, prev.last().push(s.last()))
        }
    }
}

/// Where each piece of `split_on(s, sep)` starts: zero, then the position
/// just after every separator.
pub open spec fn piece_starts<T>(s: Seq<T>, sep: T) -> Seq<int>
    decreases s.len(),
{
    if s.len() == 0 {
        seq![0int]
    } else {
        let prev = piece_starts(s.drop_last(), sep);
        if s.last() == sep {
            prev.push(s.len() as int)
        } else {
            prev
        }
    }
}

/// Where piece `i` of `s` ends (exclusive, before its separator).
pub open spec fn piece_end<T>(s: Seq<T>, sep: T, i: int) -> int {
    let st = piece_starts(s, sep);
    if i + 1 < st.len() {
        st[i + 1] - 1
    } else {
        s.len() as int
    }
}

pub proof fn lemma_split_nonempty<T>(s: Seq<T>, sep: T)
    ensures
        split_on(s, sep).len() >= 1,
    decreases s.len(),
{
    if s.len() > 0 {
        lemma_split_nonempty(s.drop_last(), sep);
    }
}

/// The start table and the pieces agree: piece `i` is the stretch of `s`
/// from its start to the next separator, the starts rise strictly from
/// zero, each start but the first follows a separator, and no piece holds a
/// separator.
pub proof fn lemma_pieces_at_starts<T>(s: Seq<T>, sep: T)
    ensures
        ({
            let p = split_on(s, sep);
            let st = piece_starts(s, sep);
            &&& p.len() == st.len()
            &&& st.len() >= 1
            &&& st[0] == 0
            &&& forall|i: int| 0 <= i < st.len() ==> 0 <= #[trigger] st[i] <= s.len()
            &&& forall|i: int, j: int| 0 <= i < j < st.len() ==> st[i] < st[j]
            &&& forall|i: int| 1 <= i < st.len() ==> s[#[trigger] st[i] - 1] == sep
            &&& forall|i: int|
                0 <= i < p.len() ==> #[trigger] p[i] == s.subrange(st[i], piece_end(s, sep, i))
            &&& forall|i: int, j: int|
                0 <= i < p.len() && 0 <= j < p[i].len() ==> #[trigger] p[i][j] != sep
        }),
    decreases s.len(),
{
    if s.len() > 0 {
        let t = s.drop_last();
        lemma_pieces_at_starts(t, sep);
        let p0 = split_on(t, sep);
        let st0 = piece_starts(t, sep);
        let p = split_on(s, sep);
        let st = piece_starts(s, sep);
        assert forall|i: int| 0 <= i < p0.len() - 1 implies #[trigger] p[i] == s.subrange(
            st[i],
            piece_end(s, sep, i),
        ) by {
            assert(s.subrange(st[i], piece_end(s, sep, i)) =~= t.subrange(
                st0[i],
                piece_end(t, sep, i),
            ));
        }
        let k = p0.len() - 1;
        if s.last() == sep {
            assert(s.subrange(st[k], piece_end(s, sep, k)) =~= t.subrange(
                st0[k],
                piece_end(t, sep, k),
            ));
            assert(s.subrange(st[k + 1], piece_end(s, sep, k + 1)) =~= Seq::<T>::empty());
        } else {
            assert(s.subrange(st[k], piece_end(s, sep, k)) =~= t.subrange(
                st0[k],
                piece_end(t, sep, k),
            ).push(s.last()));
        }
        assert forall|i: int, j: int|
            0 <= i < p.len() && 0 <= j < p[i].len() implies #[trigger] p[i][j] != sep by {
            if i < k {
                assert(p[i] == p0[i]);
            } else if i == k {
                if j < p0[k].len() {
                    assert(p[i][j] == p0[k][j]);
                }
            }
        }
    }
}

/// The pieces of a prefix, all but its last (which may still grow), are the
/// first pieces of the whole.
pub proof fn lemma_split_prefix<T>(s: Seq<T>, j: int, sep: T)
    requires
        0 <= j <= s.len(),
    ensures
        split_on(s.subrange(0, j), sep).len() <= split_on(s, sep).len(),
        forall|t: int|
            0 <= t < split_on(s.subrange(0, j), sep).len() - 1 ==> #[trigger] split_on(s, sep)[t]
                == split_on(s.subrange(0, j), sep)[t],
    decreases s.len(),
{
    if j == s.len() {
        assert(s.subrange(0, j) =~= s);
    } else {
        let t = s.drop_last();
        lemma_split_prefix(t, j, sep);
        lemma_split_nonempty(t, sep);
        assert(t.subrange(0, j) =~= s.subrange(0, j));
    }
}

} // verus!
