use vstd::prelude::*;

verus! {

// ---------------------------------------------------------------------------
// Mathematical model of compacting and merging one line of tiles.
//
// A line is a sequence of cell values (0 is an empty cell). Sliding it toward
// position 0 places every non-zero tile, in order, onto the next free slot,
// merging it into the previously placed tile when the two are equal and that
// tile was not itself created by a merge of this pass. Values are modelled as
// unbounded integers so the model is total; the executable engine is the one
// that must justify that merge results fit its cell type.
// ---------------------------------------------------------------------------

/// Model counterpart of a reported effect, over unbounded integers.
pub enum ActionModel {
    Merge { from: int, to: int, result: int },
    Move { from: int, to: int },
}

/// State of the slide after some prefix of the line has been examined:
/// the tiles placed so far, the effects emitted so far, and whether the
/// last placed tile may still absorb a merge.
pub struct SlideState {
    pub tiles: Seq<int>,
    pub actions: Seq<ActionModel>,
    pub mergeable: bool,
}

/// How one examined cell (position `p`, value `v`) advances the slide.
pub open spec fn slide_step(st: SlideState, p: int, v: int) -> SlideState {
    if v == 0 {
        st
    } else if st.mergeable && st.tiles.last() == v {
        SlideState {
            tiles: st.tiles.update(st.tiles.len() - 1, v + v),
            actions: st.actions.push(ActionModel::Merge {
                from: p,
                to: st.tiles.len() - 1,
                result: v + v,
            }),
            mergeable: false,
        }
    } else if p == st.tiles.len() {
        SlideState { tiles: st.tiles.push(v), actions: st.actions, mergeable: true }
    } else {
        SlideState {
            tiles: st.tiles.push(v),
            actions: st.actions.push(ActionModel::Move { from: p, to: st.tiles.len() as int }),
            mergeable: true,
        }
    }
}

/// The slide state after examining positions `0 .. k` of the line.
pub open spec fn slide_prefix(l: Seq<int>, k: int) -> SlideState
    decreases k,
{
    if k <= 0 {
        SlideState { tiles: Seq::empty(), actions: Seq::empty(), mergeable: false }
    } else {
        slide_step(slide_prefix(l, k - 1), k - 1, l[k - 1])
    }
}

/// The completed slide of a whole line.
pub open spec fn slide_line(l: Seq<int>) -> SlideState {
    slide_prefix(l, l.len() as int)
}

/// The line after the slide: the placed tiles, then empty cells.
pub open spec fn slid_line(l: Seq<int>) -> Seq<int> {
    slide_line(l).tiles + Seq::new((l.len() - slide_line(l).tiles.len()) as nat, |q: int| 0)
}

/// A line of cell values: every entry is non-negative.
pub open spec fn line_nonneg(l: Seq<int>) -> bool {
    forall|j: int| 0 <= j < l.len() ==> l[j] >= 0
}

/// Number of `Merge` effects in a model action sequence.
pub open spec fn merge_count(a: Seq<ActionModel>) -> int
    decreases a.len(),
{
    if a.len() == 0 {
        0
    } else {
        merge_count(a.drop_last()) + (if a.last() is Merge { 1int } else { 0int })
    }
}

/// A merge count is never negative.
pub proof fn lemma_merge_count_nonneg(a: Seq<ActionModel>)
    ensures
        merge_count(a) >= 0,
    decreases a.len(),
{
    if a.len() > 0 {
        lemma_merge_count_nonneg(a.drop_last());
    }
}

/// Appending one action raises the merge count by one exactly for a `Merge`.
pub proof fn lemma_merge_count_push(s: Seq<ActionModel>, a: ActionModel)
    ensures
        merge_count(s.push(a)) == merge_count(s) + (if a is Merge { 1int } else { 0int }),
{
    assert(s.push(a).drop_last() =~= s);
    assert(s.push(a).last() == a);
}

/// The merge count of concatenated action sequences adds up.
pub proof fn lemma_merge_count_concat(a: Seq<ActionModel>, b: Seq<ActionModel>)
    ensures
        merge_count(a + b) == merge_count(a) + merge_count(b),
    decreases b.len(),
{
    if b.len() == 0 {
        assert(a + b =~= a);
    } else {
        assert((a + b).drop_last() =~= a + b.drop_last());
        assert((a + b).last() == b.last());
        lemma_merge_count_concat(a, b.drop_last());
    }
}

/// Basic shape facts about a partial slide: no more tiles than examined
/// cells, every placed tile is positive, a mergeable state has a last tile,
/// and a full prefix of placed tiles ends in a placeable state.
pub proof fn lemma_slide_prefix_props(l: Seq<int>, k: int)
    requires
        0 <= k <= l.len(),
        line_nonneg(l),
    ensures
        slide_prefix(l, k).tiles.len() <= k,
        slide_prefix(l, k).mergeable ==> slide_prefix(l, k).tiles.len() >= 1,
        forall|j: int| 0 <= j < slide_prefix(l, k).tiles.len() ==> slide_prefix(l, k).tiles[j] > 0,
        slide_prefix(l, k).tiles.len() == k && k > 0 ==> slide_prefix(l, k).mergeable,
    decreases k,
{
    if k > 0 {
        lemma_slide_prefix_props(l, k - 1);
    }
}

/// Every placed tile is at most double the largest examined cell: a tile is
/// an examined value, or the merge of two equal examined values — never the
/// merge of an earlier merge, since a fresh merge cannot absorb again.
pub proof fn lemma_slide_tiles_bounded(l: Seq<int>, k: int, bound: int)
    requires
        0 <= k <= l.len(),
        0 <= bound,
        forall|j: int| 0 <= j < l.len() ==> l[j] <= bound,
    ensures
        forall|j: int|
            0 <= j < slide_prefix(l, k).tiles.len() ==> slide_prefix(l, k).tiles[j] <= bound
                + bound,
        slide_prefix(l, k).mergeable ==> slide_prefix(l, k).tiles.len() >= 1
            && slide_prefix(l, k).tiles.last() <= bound,
    decreases k,
{
    if k > 0 {
        lemma_slide_tiles_bounded(l, k - 1, bound);
        let st = slide_prefix(l, k - 1);
        let st1 = slide_prefix(l, k);
        let v = l[k - 1];
        assert(st1 == slide_step(st, k - 1, v));
        if v == 0 {
        } else if st.mergeable && st.tiles.last() == v {
            assert(st1.tiles == st.tiles.update(st.tiles.len() - 1, v + v));
            assert forall|j: int| 0 <= j < st1.tiles.len() implies st1.tiles[j] <= bound
                + bound by {
                if j == st.tiles.len() - 1 {
                    assert(st1.tiles[j] == v + v);
                } else {
                    assert(st1.tiles[j] == st.tiles[j]);
                }
            }
        } else {
            assert(st1.tiles == st.tiles.push(v));
            assert forall|j: int| 0 <= j < st1.tiles.len() implies st1.tiles[j] <= bound
                + bound by {
                if j == st.tiles.len() {
                    assert(st1.tiles[j] == v);
                } else {
                    assert(st1.tiles[j] == st.tiles[j]);
                }
            }
        }
    }
}

/// Once a placed tile can no longer merge (it is not the last tile, or the
/// state is not mergeable), its value is final: the completed slide keeps it.
pub proof fn lemma_tile_stable(l: Seq<int>, k: int, j: int)
    requires
        0 <= k <= l.len(),
        0 <= j < slide_prefix(l, k).tiles.len(),
        j + 1 < slide_prefix(l, k).tiles.len() || !slide_prefix(l, k).mergeable,
    ensures
        slide_line(l).tiles.len() >= slide_prefix(l, k).tiles.len(),
        slide_line(l).tiles[j] == slide_prefix(l, k).tiles[j],
    decreases l.len() - k,
{
    if k < l.len() {
        let st = slide_prefix(l, k);
        let st1 = slide_prefix(l, k + 1);
        assert(st1 == slide_step(st, k, l[k]));
        lemma_tile_stable(l, k + 1, j);
    }
}

/// No two neighbouring entries of the sequence are equal.
pub open spec fn no_adjacent_equal(t: Seq<int>) -> bool {
    forall|j: int| 0 <= j < t.len() - 1 ==> #[trigger] t[j] != t[j + 1]
}

/// Sliding is idempotent on lines whose slide leaves no two equal
/// neighbouring tiles: sliding the already-slid line places every tile where
/// it already stands, emits no effect, and changes no cell. (A slide that
/// does leave equal neighbours, such as one producing tiles 4, 4, 4, merges
/// again on the next pass, so those lines are excluded.)
pub proof fn lemma_slide_idempotent(l: Seq<int>)
    requires
        line_nonneg(l),
        no_adjacent_equal(slide_line(l).tiles),
    ensures
        slide_line(slid_line(l)).tiles == slide_line(l).tiles,
        slide_line(slid_line(l)).actions == Seq::<ActionModel>::empty(),
        slid_line(slid_line(l)) == slid_line(l),
{
    let t = slide_line(l).tiles;
    let c = slid_line(l);
    lemma_slide_prefix_props(l, l.len() as int);
    lemma_compact_prefix(c, t, c.len() as int);
    assert(t.take(t.len() as int) =~= t);
    assert(slide_line(c).tiles == t);
    assert(slid_line(c) =~= c);
}

/// Slide of a line that is already compacted to the all-positive tiles `t`
/// (then zeros), with no equal neighbours in `t`: each examined tile is
/// placed back where it stands and nothing is emitted.
proof fn lemma_compact_prefix(c: Seq<int>, t: Seq<int>, k: int)
    requires
        0 <= k <= c.len(),
        t.len() <= c.len(),
        forall|j: int| 0 <= j < t.len() ==> c[j] == t[j] && t[j] > 0,
        forall|j: int| t.len() <= j < c.len() ==> c[j] == 0,
        no_adjacent_equal(t),
    ensures
        slide_prefix(c, k).tiles == t.take(if k < t.len() { k } else { t.len() as int }),
        slide_prefix(c, k).actions == Seq::<ActionModel>::empty(),
        slide_prefix(c, k).mergeable == (0 < k && 0 < t.len()),
    decreases k,
{
    if k > 0 {
        lemma_compact_prefix(c, t, k - 1);
        let st = slide_prefix(c, k - 1);
        if k - 1 < t.len() {
            assert(c[k - 1] == t[k - 1]);
            if k - 1 > 0 {
                assert(st.tiles.last() == t[k - 2]);
                assert(t[k - 2] != t[k - 1]);
            }
            assert(st.tiles.len() == k - 1);
            assert(slide_prefix(c, k).tiles =~= t.take(
                if k < t.len() { k } else { t.len() as int }));
        } else {
            assert(c[k - 1] == 0);
            assert(st.tiles =~= t.take(if k < t.len() { k } else { t.len() as int }));
        }
    } else {
        assert(slide_prefix(c, 0).tiles =~= t.take(0));
    }
}

/// A line with no tiles slides to itself and emits nothing.
pub proof fn lemma_zero_line(l: Seq<int>)
    requires
        forall|j: int| 0 <= j < l.len() ==> l[j] == 0,
    ensures
        slide_line(l).tiles == Seq::<int>::empty(),
        slide_line(l).actions == Seq::<ActionModel>::empty(),
        slid_line(l) == l,
{
    lemma_zero_prefix(l, l.len() as int);
    assert(slid_line(l) =~= l);
}

proof fn lemma_zero_prefix(l: Seq<int>, k: int)
    requires
        0 <= k <= l.len(),
        forall|j: int| 0 <= j < l.len() ==> l[j] == 0,
    ensures
        slide_prefix(l, k).tiles == Seq::<int>::empty(),
        slide_prefix(l, k).actions == Seq::<ActionModel>::empty(),
        slide_prefix(l, k).mergeable == false,
    decreases k,
{
    if k > 0 {
        lemma_zero_prefix(l, k - 1);
    }
}

} // verus!
