//! Selection and grouping state: which points are selected, which belong to
//! a common group, and how both survive the swap-with-last renumbering that
//! point deletion performs.

use crate::fixed::SCALE;
use crate::quaternion::Quaternion;
use vstd::prelude::*;

verus! {

/// No value occurs twice.
pub open spec fn nodup(s: Seq<usize>) -> bool {
    forall|i: int, j: int| 0 <= i < j < s.len() ==> s[i] != s[j]
}

/// Whether any of the groups contains `x`.
pub open spec fn in_some_group(gs: Seq<Vec<usize>>, x: usize) -> bool {
    exists|i: int| 0 <= i < gs.len() && (#[trigger] gs[i])@.contains(x)
}

/// Does `v@` contain `x`? A linear scan.
pub fn contains_val(v: &Vec<usize>, x: usize) -> (r: bool)
    ensures
        r == v@.contains(x),
{
    let mut i: usize = 0;
    while i < v.len()
        invariant
            i <= v.len(),
            forall|k: int| 0 <= k < i ==> v@[k] != x,
        decreases v.len() - i,
    {
        if v[i] == x {
            return true;
        }
        i += 1;
    }
    false
}

/// The elements of `v` other than `x`, in order.
pub fn remove_val(v: &Vec<usize>, x: usize) -> (r: Vec<usize>)
    ensures
        r@ == v@.filter(|e: usize| e != x),
{
    broadcast use vstd::seq_lib::group_filter_ensures;
    broadcast use vstd::seq_lib::group_seq_lib_default;

    let mut out: Vec<usize> = Vec::new();
    let mut i: usize = 0;
    proof {
        assert(v@.subrange(0, 0).filter(|e: usize| e != x) =~= Seq::<usize>::empty()) by {
            reveal(Seq::filter);
        }
    }
    while i < v.len()
        invariant
            i <= v.len(),
            out@ == v@.subrange(0, i as int).filter(|e: usize| e != x),
        decreases v.len() - i,
    {
        let ghost pre = v@.subrange(0, i as int);
        let ghost single = seq![v@[i as int]];
        proof {
            assert(v@.subrange(0, i as int + 1) =~= pre + single);
            assert((pre + single).filter(|e: usize| e != x) == pre.filter(|e: usize| e != x)
                + single.filter(|e: usize| e != x));
            assert(single.drop_last() =~= Seq::<usize>::empty());
            assert(single.filter(|e: usize| e != x) == if v@[i as int] != x {
                Seq::<usize>::empty().push(v@[i as int])
            } else {
                Seq::<usize>::empty()
            }) by {
                reveal_with_fuel(Seq::filter, 3);
            }
        }
        if v[i] != x {
            out.push(v[i]);
            proof {
                assert(out@ =~= pre.filter(|e: usize| e != x) + single.filter(
                    |e: usize| e != x,
                ));
            }
        } else {
            proof {
                assert(out@ =~= pre.filter(|e: usize| e != x) + single.filter(
                    |e: usize| e != x,
                ));
            }
        }
        i += 1;
    }
    proof {
        assert(v@.subrange(0, v@.len() as int) =~= v@);
    }
    out
}

/// Removing `x` removes exactly `x`, in terms of membership.
pub proof fn lemma_filter_ne_member(s: Seq<usize>, x: usize, e0: usize)
    ensures
        s.filter(|e: usize| e != x).contains(e0) <==> (s.contains(e0) && e0 != x),
{
    broadcast use vstd::seq_lib::group_filter_ensures;

    let f = s.filter(|e: usize| e != x);
    if f.contains(e0) {
        let i = choose|i: int| 0 <= i < f.len() && f[i] == e0;
        lemma_filter_ne_subset(s, x, i);
    }
    if s.contains(e0) && e0 != x {
        let i = choose|i: int| 0 <= i < s.len() && s[i] == e0;
        assert(f.contains(s[i]));
    }
}

/// Every element of the filtered sequence stands somewhere in the original.
proof fn lemma_filter_ne_subset(s: Seq<usize>, x: usize, i: int)
    requires
        0 <= i < s.filter(|e: usize| e != x).len(),
    ensures
        s.contains(s.filter(|e: usize| e != x)[i]),
        s.filter(|e: usize| e != x)[i] != x,
    decreases s.len(),
{
    broadcast use vstd::seq_lib::group_filter_ensures;

    reveal(Seq::filter);
    if s.len() > 0 {
        let sub = s.drop_last().filter(|e: usize| e != x);
        if i < sub.len() {
            lemma_filter_ne_subset(s.drop_last(), x, i);
            let e = sub[i];
            let j = choose|j: int| 0 <= j < s.drop_last().len() && s.drop_last()[j] == e;
            assert(s[j] == e);
        } else {
            assert(s[s.len() - 1] == s.filter(|e: usize| e != x)[i]);
        }
    }
}

/// Filtering keeps distinctness.
pub proof fn lemma_filter_ne_nodup(s: Seq<usize>, x: usize)
    requires
        nodup(s),
    ensures
        nodup(s.filter(|e: usize| e != x)),
    decreases s.len(),
{
    reveal(Seq::filter);
    if s.len() > 0 {
        assert(forall|i: int, j: int|
            0 <= i < j < s.drop_last().len() ==> s.drop_last()[i] != s.drop_last()[j]);
        lemma_filter_ne_nodup(s.drop_last(), x);
        let sub = s.drop_last().filter(|e: usize| e != x);
        let e = s.last();
        if e != x {
            assert forall|i: int| 0 <= i < sub.len() implies sub[i] != e by {
                lemma_filter_ne_subset(s.drop_last(), x, i);
                let j = choose|j: int|
                    0 <= j < s.drop_last().len() && s.drop_last()[j] == sub[i];
                assert(s[j] == sub[i]);
            }
        }
    }
}

/// Membership after a push: the old elements and the new one.
pub proof fn lemma_push_contains(s: Seq<usize>, v: usize, x: usize)
    ensures
        s.push(v).contains(x) <==> (s.contains(x) || x == v),
{
    if s.push(v).contains(x) {
        let j = choose|j: int| 0 <= j < s.push(v).len() && s.push(v)[j] == x;
        if j < s.len() {
            assert(s[j] == x);
        }
    }
    if s.contains(x) {
        let j = choose|j: int| 0 <= j < s.len() && s[j] == x;
        assert(s.push(v)[j] == x);
    }
    if x == v {
        assert(s.push(v)[s.len() as int] == x);
    }
}



/// One group under the swap-with-last renumbering, as a sequence: drop
/// `removed`, rename `last` to `removed`, order kept.
pub open spec fn renum_seq(g: Seq<usize>, removed: usize, last: usize) -> Seq<usize>
    decreases g.len(),
{
    if g.len() == 0 {
        Seq::empty()
    } else {
        let rest = renum_seq(g.drop_last(), removed, last);
        if g.last() == removed {
            rest
        } else {
            rest.push(
                if g.last() == last {
                    removed
                } else {
                    g.last()
                },
            )
        }
    }
}

/// Pushing one element extends the renumbered sequence by its image, or
/// leaves it unchanged when the element is the removed index.
pub proof fn lemma_renum_seq_push(g: Seq<usize>, removed: usize, last: usize, e: usize)
    ensures
        e == removed ==> renum_seq(g.push(e), removed, last) == renum_seq(g, removed, last),
        e != removed ==> renum_seq(g.push(e), removed, last) == renum_seq(g, removed, last).push(
            if e == last {
                removed
            } else {
                e
            },
        ),
{
    assert(g.push(e).drop_last() =~= g);
    assert(g.push(e).last() == e);
}

/// The elements of `g` other than `x`, in order.
pub open spec fn seq_without(g: Seq<usize>, x: usize) -> Seq<usize>
    decreases g.len(),
{
    if g.len() == 0 {
        Seq::empty()
    } else {
        let rest = seq_without(g.drop_last(), x);
        if g.last() == x {
            rest
        } else {
            rest.push(g.last())
        }
    }
}

/// `seq_without` is the filter that keeps everything but `x`.
pub proof fn lemma_seq_without_is_filter(g: Seq<usize>, x: usize)
    ensures
        seq_without(g, x) == g.filter(|e: usize| e != x),
    decreases g.len(),
{
    reveal(Seq::filter);
    if g.len() > 0 {
        lemma_seq_without_is_filter(g.drop_last(), x);
    }
}

/// The groups after removing `pid` from each and dropping those left with
/// fewer than two members, over the first `n` groups, in order.
pub open spec fn groups_without_n(gs: Seq<Seq<usize>>, pid: usize, n: int) -> Seq<Seq<usize>>
    decreases n,
{
    if n <= 0 {
        Seq::empty()
    } else {
        let rest = groups_without_n(gs, pid, n - 1);
        let g = seq_without(gs[n - 1], pid);
        if g.len() >= 2 {
            rest.push(g)
        } else {
            rest
        }
    }
}

/// The groups after the swap-with-last renumbering of the first `n` groups,
/// dropping those left with fewer than two members, in order.
pub open spec fn groups_renum_n(gs: Seq<Seq<usize>>, removed: usize, last: usize, n: int) -> Seq<
    Seq<usize>,
>
    decreases n,
{
    if n <= 0 {
        Seq::empty()
    } else {
        let rest = groups_renum_n(gs, removed, last, n - 1);
        let g = renum_seq(gs[n - 1], removed, last);
        if g.len() >= 2 {
            rest.push(g)
        } else {
            rest
        }
    }
}

/// Membership in a group after the swap-with-last renumbering: references
/// to the removed index are dropped, references to the old last index now
/// point at the removed slot.
pub open spec fn renum_member(g: Seq<usize>, removed: usize, last: usize, x: usize) -> bool {
    if removed == last {
        g.contains(x) && x != removed
    } else if x == removed {
        g.contains(last)
    } else if x == last {
        false
    } else {
        g.contains(x)
    }
}

/// How many members a group keeps under the renumbering.
pub open spec fn renum_len(g: Seq<usize>, removed: usize) -> int {
    g.len() - if g.contains(removed) {
        1int
    } else {
        0int
    }
}

/// Rebuild one index sequence under the swap-with-last renumbering: drop
/// `removed`, rename `last` to `removed`.
pub fn renum_group(g: &Vec<usize>, removed: usize, last: usize) -> (r: Vec<usize>)
    requires
        nodup(g@),
    ensures
        r@ == renum_seq(g@, removed, last),
        forall|x: usize| #[trigger] r@.contains(x) <==> renum_member(g@, removed, last, x),
        nodup(r@),
        r@.len() == renum_len(g@, removed),
{
    let mut out: Vec<usize> = Vec::new();
    let mut i: usize = 0;
    proof {
        assert(g@.subrange(0, 0).filter(|e: usize| e != removed) =~= Seq::<usize>::empty()) by {
            reveal_with_fuel(Seq::filter, 2);
        }
        assert(out@ =~= renum_seq(g@.subrange(0, 0), removed, last));
    }
    while i < g.len()
        invariant
            i <= g@.len(),
            nodup(g@),
            nodup(out@),
            out@ == renum_seq(g@.subrange(0, i as int), removed, last),
            out@.len() == renum_len(g@.subrange(0, i as int), removed),
            forall|x: usize| #[trigger] out@.contains(x) <==> renum_member(
                g@.subrange(0, i as int),
                removed,
                last,
                x,
            ),
        decreases g@.len() - i,
    {
        let ghost pre = g@.subrange(0, i as int);
        let ghost preout = out@;
        let e = g[i];
        proof {
            assert(g@.subrange(0, i as int + 1) =~= pre.push(e));
            lemma_push_contains(pre, e, removed);
            lemma_push_contains(pre, e, last);
            assert forall|k: int| 0 <= k < pre.len() implies pre[k] != e by {
                assert(pre[k] == g@[k] && e == g@[i as int]);
            }
            assert(!pre.contains(e)) by {
                if pre.contains(e) {
                    let k = choose|k: int| 0 <= k < pre.len() && pre[k] == e;
                }
            }
        }
        if e != removed {
            let val = if e == last {
                removed
            } else {
                e
            };
            proof {
                assert(!out@.contains(val)) by {
                    if out@.contains(val) {
                        assert(renum_member(pre, removed, last, val));
                    }
                }
            }
            out.push(val);
            proof {
                lemma_renum_seq_push(pre, removed, last, e);
                assert(out@ == renum_seq(pre.push(e), removed, last));
                assert(nodup(out@)) by {
                    assert(out@ == preout.push(val));
                    assert forall|a1: int, a2: int|
                        0 <= a1 < a2 < out@.len() implies out@[a1] != out@[a2] by {
                        if a2 == preout.len() {
                            assert(preout[a1] == out@[a1]);
                            if preout[a1] == val {
                                assert(preout.contains(val));
                            }
                        }
                    }
                }
                assert forall|x: usize| #[trigger] out@.contains(x) <==> renum_member(
                    pre.push(e),
                    removed,
                    last,
                    x,
                ) by {
                    lemma_push_contains(preout, val, x);
                    lemma_push_contains(pre, e, x);
                    lemma_push_contains(pre, e, last);
                }
            }
        } else {
            proof {
                lemma_renum_seq_push(pre, removed, last, e);
                assert(out@ == renum_seq(pre.push(e), removed, last));
                assert forall|x: usize| #[trigger] out@.contains(x) <==> renum_member(
                    pre.push(e),
                    removed,
                    last,
                    x,
                ) by {
                    lemma_push_contains(pre, e, x);
                    lemma_push_contains(pre, e, last);
                }
            }
        }
        i += 1;
    }
    proof {
        assert(g@.subrange(0, g@.len() as int) =~= g@);
    }
    out
}

/// The view state around the sphere: the selection, the orientation (as a
/// quaternion and its Euler mirror in microdegrees), zoom, display flags,
/// and the point groups.
pub struct State {
    pub selected: Vec<usize>,
    pub zoom: i64,
    pub rotation: [i64; 3],
    pub quaternion: Quaternion,
    pub show_grid: bool,
    pub show_hidden: bool,
    pub show_center: bool,
    pub groups: Vec<Vec<usize>>,
}

impl State {
    /// The selection holds no point twice; groups are pairwise disjoint sets
    /// of at least two distinct points.
    pub open spec fn wf(self) -> bool {
        &&& nodup(self.selected@)
        &&& forall|i: int|
            0 <= i < self.groups@.len() ==> nodup((#[trigger] self.groups@[i])@)
                && self.groups@[i]@.len() >= 2
        &&& forall|i: int, j: int, x: usize|
            0 <= i < self.groups@.len() && 0 <= j < self.groups@.len() && i != j
                && #[trigger] self.groups@[i]@.contains(x) ==> !(#[trigger] self.groups@[j]@.contains(
                x,
            ))
    }

    /// `x` belongs to the same selection unit as `id`: its group when `id`
    /// is grouped, else exactly `id` itself.
    pub open spec fn same_group(self, id: usize, x: usize) -> bool {
        if in_some_group(self.groups@, id) {
            exists|i: int|
                0 <= i < self.groups@.len() && (#[trigger] self.groups@[i])@.contains(id)
                    && self.groups@[i]@.contains(x)
        } else {
            x == id
        }
    }

    /// Everything but the selection is unchanged.
    pub open spec fn same_but_selected(self, o: State) -> bool {
        &&& self.zoom == o.zoom
        &&& self.rotation == o.rotation
        &&& self.quaternion == o.quaternion
        &&& self.show_grid == o.show_grid
        &&& self.show_hidden == o.show_hidden
        &&& self.show_center == o.show_center
        &&& self.groups == o.groups
    }

    /// Everything but the groups is unchanged.
    pub open spec fn same_but_groups(self, o: State) -> bool {
        &&& self.zoom == o.zoom
        &&& self.rotation == o.rotation
        &&& self.quaternion == o.quaternion
        &&& self.show_grid == o.show_grid
        &&& self.show_hidden == o.show_hidden
        &&& self.show_center == o.show_center
        &&& self.selected == o.selected
    }

    /// The empty selection, identity orientation, unit zoom, all overlays off.
    pub fn initialize() -> (r: State)
        ensures
            r.selected@ == Seq::<usize>::empty(),
            r.groups@ == Seq::<Vec<usize>>::empty(),
            r.zoom == SCALE,
            r.rotation == [0i64, 0i64, 0i64],
            r.quaternion == (Quaternion { w: SCALE, x: 0, y: 0, z: 0 }),
            !r.show_grid && !r.show_hidden && !r.show_center,
            r.wf(),
    {
        State {
            selected: Vec::new(),
            zoom: SCALE,
            rotation: [0, 0, 0],
            quaternion: Quaternion::identity(),
            show_grid: false,
            show_hidden: false,
            show_center: false,
            groups: Vec::new(),
        }
    }

    /// The selected point indices, in selection order.
    pub fn selected(&self) -> (r: &Vec<usize>)
        ensures
            r@ == self.selected@,
    {
        &self.selected
    }

    pub fn clear_selection(&mut self)
        ensures
            final(self).selected@ == Seq::<usize>::empty(),
            final(self).same_but_selected(*old(self)),
            old(self).wf() ==> final(self).wf(),
    {
        self.selected.clear();
    }

    /// Remove and return the most recently selected index.
    pub fn pop_selected(&mut self) -> (r: Option<usize>)
        ensures
            final(self).same_but_selected(*old(self)),
            old(self).selected@.len() == 0 ==> (r is None) && final(self).selected@ == old(self).selected@,
            old(self).selected@.len() > 0 ==> r == Some(old(self).selected@.last()) && final(self).selected@ == old(self).selected@.drop_last(),
            old(self).wf() ==> final(self).wf(),
    {
        self.selected.pop()
    }

    /// Toggle one index: in multi mode it joins or leaves the selection; in
    /// single mode it becomes the selection, or clears it when it already
    /// was exactly the selection. Returns whether the point ends selected.
    pub fn toggle_select(&mut self, multi: bool, id: usize) -> (r: bool)
        requires
            old(self).wf(),
        ensures
            final(self).same_but_selected(*old(self)),
            final(self).wf(),
            multi && old(self).selected@.contains(id) ==> final(self).selected@ == old(self).selected@.filter(|e: usize| e != id) && !r,
            multi && !old(self).selected@.contains(id) ==> final(self).selected@ == old(self).selected@.push(id) && r,
            !multi && old(self).selected@.len() == 1 && old(self).selected@[0] == id ==> final(self).selected@ == Seq::<usize>::empty() && !r,
            !multi && !(old(self).selected@.len() == 1 && old(self).selected@[0] == id) ==> final(self).selected@ == seq![id] && r,
    {
        if multi {
            if contains_val(&self.selected, id) {
                let out = remove_val(&self.selected, id);
                proof {
                    lemma_filter_ne_nodup(self.selected@, id);
                }
                self.selected = out;
                false
            } else {
                self.selected.push(id);
                proof {
                    assert(forall|k: int|
                        0 <= k < old(self).selected@.len() ==> old(self).selected@[k] != id);
                }
                true
            }
        } else if self.selected.len() == 1 && self.selected[0] == id {
            self.selected.clear();
            false
        } else {
            self.selected.clear();
            self.selected.push(id);
            proof {
                assert(self.selected@ =~= seq![id]);
            }
            true
        }
    }

    /// Add `id` to the selection if absent; returns whether it was added.
    pub fn select(&mut self, id: usize) -> (r: bool)
        requires
            old(self).wf(),
        ensures
            final(self).same_but_selected(*old(self)),
            final(self).wf(),
            old(self).selected@.contains(id) ==> !r && final(self).selected@ == old(self).selected@,
            !old(self).selected@.contains(id) ==> r && final(self).selected@ == old(self).selected@.push(id),
    {
        if contains_val(&self.selected, id) {
            false
        } else {
            self.selected.push(id);
            true
        }
    }

    /// The index of the first group containing `point_id`, if any.
    pub fn find_group_containing(&self, point_id: usize) -> (r: Option<usize>)
        ensures
            match r {
                Some(i) => 0 <= i < self.groups@.len() && self.groups@[i as int]@.contains(point_id)
                    && forall|j: int|
                    0 <= j < i ==> !(#[trigger] self.groups@[j])@.contains(point_id),
                None => !in_some_group(self.groups@, point_id),
            },
    {
        let mut i: usize = 0;
        while i < self.groups.len()
            invariant
                i <= self.groups@.len(),
                forall|j: int| 0 <= j < i ==> !(#[trigger] self.groups@[j])@.contains(point_id),
            decreases self.groups@.len() - i,
        {
            if contains_val(&self.groups[i], point_id) {
                return Some(i);
            }
            i += 1;
        }
        None
    }

    /// The members of the group containing `point_id`, or the point alone.
    pub fn get_group_members(&self, point_id: usize) -> (r: Vec<usize>)
        requires
            self.wf(),
        ensures
            forall|x: usize| r@.contains(x) <==> self.same_group(point_id, x),
            nodup(r@),
            r@.contains(point_id),
            !in_some_group(self.groups@, point_id) ==> r@ == seq![point_id],
            in_some_group(self.groups@, point_id) ==> exists|i: int|
                0 <= i < self.groups@.len() && (#[trigger] self.groups@[i])@.contains(point_id)
                    && r@ == self.groups@[i]@,
    {
        match self.find_group_containing(point_id) {
            Some(group_idx) => {
                let g = &self.groups[group_idx];
                let mut out: Vec<usize> = Vec::new();
                let mut i: usize = 0;
                while i < g.len()
                    invariant
                        i <= g@.len(),
                        out@ == g@.subrange(0, i as int),
                    decreases g@.len() - i,
                {
                    out.push(g[i]);
                    proof {
                        assert(out@ =~= g@.subrange(0, i as int + 1));
                    }
                    i += 1;
                }
                proof {
                    assert(out@ =~= g@);
                    let gi = group_idx as int;
                    assert(self.groups@[gi]@.contains(point_id) && out@ == self.groups@[gi]@);
                    assert(in_some_group(self.groups@, point_id)) by {
                        assert(self.groups@[gi]@.contains(point_id));
                    }
                    assert forall|x: usize| out@.contains(x) implies self.same_group(
                        point_id,
                        x,
                    ) by {
                        assert(self.groups@[gi]@.contains(point_id) && self.groups@[gi]@.contains(
                            x,
                        ));
                    }
                    assert forall|x: usize| self.same_group(point_id, x) implies out@.contains(
                        x,
                    ) by {
                        let i = choose|i: int|
                            0 <= i < self.groups@.len() && self.groups@[i]@.contains(point_id)
                                && self.groups@[i]@.contains(x);
                        if i != gi {
                            assert(self.groups@[gi]@.contains(point_id));
                            assert(!self.groups@[i]@.contains(point_id));
                        }
                    }
                }
                out
            },
            None => {
                let mut out: Vec<usize> = Vec::new();
                out.push(point_id);
                proof {
                    assert(out@ =~= seq![point_id]);
                    assert(out@[0] == point_id);
                    assert forall|x: usize| out@.contains(x) implies x == point_id by {
                        let j = choose|j: int| 0 <= j < out@.len() && out@[j] == x;
                    }
                    assert(out@.contains(point_id));
                }
                out
            },
        }
    }

    /// Toggle the whole selection unit of `id` (its group, or the point
    /// itself). Returns whether the unit ends selected: in multi mode an
    /// already fully selected unit is deselected and any other unit is
    /// added; in single mode the selection becomes exactly the unit unless
    /// it already was, which clears it.
    pub fn toggle_select_group(&mut self, multi: bool, id: usize) -> (r: bool)
        requires
            old(self).wf(),
        ensures
            final(self).same_but_selected(*old(self)),
            final(self).wf(),
            r ==> forall|x: usize|
                final(self).selected@.contains(x) <==> (old(self).selected@.contains(x) && (multi
                    || old(self).same_group(id, x))) || old(self).same_group(id, x),
            !r ==> forall|x: usize|
                final(self).selected@.contains(x) <==> (old(self).selected@.contains(x) && multi
                    && !old(self).same_group(id, x)),
            multi ==> (r <==> !(forall|x: usize|
                old(self).same_group(id, x) ==> old(self).selected@.contains(x))),
            !multi ==> (r <==> !(forall|x: usize|
                old(self).selected@.contains(x) <==> old(self).same_group(id, x))),
    {
        let members = self.get_group_members(id);
        let ghost os = self.selected@;
        if multi {
            let mut all_selected = true;
            let mut i: usize = 0;
            while i < members.len()
                invariant
                    i <= members@.len(),
                    all_selected <==> forall|k: int|
                        0 <= k < i ==> os.contains(#[trigger] members@[k]),
                    os == self.selected@,
                    self == old(self),
                decreases members@.len() - i,
            {
                if !contains_val(&self.selected, members[i]) {
                    all_selected = false;
                }
                i += 1;
            }
            proof {
                assert(all_selected <==> (forall|x: usize|
                    old(self).same_group(id, x) ==> os.contains(x))) by {
                    if all_selected {
                        assert forall|x: usize|
                            old(self).same_group(id, x) implies os.contains(x) by {
                            assert(members@.contains(x));
                            let k = choose|k: int| 0 <= k < members@.len() && members@[k] == x;
                        }
                    } else {
                        let k = choose|k: int|
                            0 <= k < members@.len() && !os.contains(#[trigger] members@[k]);
                        assert(members@.contains(members@[k]));
                    }
                }
            }
            if all_selected {
                let mut i: usize = 0;
                while i < members.len()
                    invariant
                        i <= members@.len(),
                        self.same_but_selected(*old(self)),
                        nodup(self.selected@),
                        old(self).wf(),
                        forall|x: usize| #![trigger self.selected@.contains(x)]
                            self.selected@.contains(x) ==> os.contains(x),
                        forall|k: int|
                            0 <= k < i ==> !self.selected@.contains(#[trigger] members@[k]),
                        forall|x: usize| #![trigger os.contains(x)]
                            os.contains(x) && !members@.contains(x) ==> self.selected@.contains(x),
                    decreases members@.len() - i,
                {
                    let ghost pre_sel = self.selected@;
                    let ghost m = members@[i as int];
                    let out = remove_val(&self.selected, members[i]);
                    proof {
                        lemma_filter_ne_nodup(pre_sel, m);
                    }
                    self.selected = out;
                    proof {
                        assert(nodup(self.selected@));
                        assert forall|x: usize| #![trigger self.selected@.contains(x)]
                            self.selected@.contains(x) implies os.contains(x) by {
                            lemma_filter_ne_member(pre_sel, m, x);
                        }
                        assert forall|k: int|
                            0 <= k < i + 1 implies !self.selected@.contains(
                            #[trigger] members@[k],
                        ) by {
                            lemma_filter_ne_member(pre_sel, m, members@[k]);
                        }
                        assert forall|x: usize| #![trigger os.contains(x)]
                            os.contains(x) && !members@.contains(x) implies self.selected@.contains(
                            x,
                        ) by {
                            lemma_filter_ne_member(pre_sel, m, x);
                            assert(members@.contains(m));
                        }
                    }
                    i += 1;
                }
                proof {
                    assert forall|x: usize|
                        self.selected@.contains(x) <==> (old(self).selected@.contains(x) && multi
                            && !old(self).same_group(id, x)) by {
                        if self.selected@.contains(x) {
                            if members@.contains(x) {
                                let k = choose|k: int|
                                    0 <= k < members@.len() && members@[k] == x;
                            }
                            assert(!members@.contains(x));
                        }
                        if os.contains(x) && !old(self).same_group(id, x) {
                            assert(!members@.contains(x));
                        }
                    }
                }
                false
            } else {
                let mut i: usize = 0;
                while i < members.len()
                    invariant
                        i <= members@.len(),
                        self.same_but_selected(*old(self)),
                        nodup(self.selected@),
                        old(self).wf(),
                        forall|x: usize| #![trigger os.contains(x)]
                            os.contains(x) ==> self.selected@.contains(x),
                        forall|k: int|
                            0 <= k < i ==> self.selected@.contains(#[trigger] members@[k]),
                        forall|x: usize| #![trigger self.selected@.contains(x)]
                            self.selected@.contains(x) ==> os.contains(x) || members@.contains(x),
                    decreases members@.len() - i,
                {
                    let ghost pre = self.selected@;
                    let ghost m = members@[i as int];
                    if !contains_val(&self.selected, members[i]) {
                        self.selected.push(members[i]);
                        proof {
                            assert(self.selected@ == pre.push(m));
                            assert(nodup(self.selected@)) by {
                                lemma_push_contains(pre, m, m);
                                assert forall|a1: int, a2: int|
                                    0 <= a1 < a2 < self.selected@.len() implies self.selected@[a1]
                                    != self.selected@[a2] by {
                                    if a2 == pre.len() {
                                        assert(pre[a1] == self.selected@[a1]);
                                        if pre[a1] == m {
                                            assert(pre.contains(m));
                                        }
                                    }
                                }
                            }
                            assert forall|x: usize| #![trigger os.contains(x)]
                                os.contains(x) implies self.selected@.contains(x) by {
                                lemma_push_contains(pre, m, x);
                            }
                            assert forall|k: int|
                                0 <= k < i + 1 implies self.selected@.contains(
                                #[trigger] members@[k],
                            ) by {
                                lemma_push_contains(pre, m, members@[k]);
                            }
                            assert forall|x: usize| #![trigger self.selected@.contains(x)]
                                self.selected@.contains(x) implies os.contains(x)
                                || members@.contains(x) by {
                                lemma_push_contains(pre, m, x);
                                if x == m {
                                    assert(members@.contains(m));
                                }
                            }
                        }
                    } else {
                        proof {
                            assert(self.selected@.contains(members@[i as int]));
                        }
                    }
                    i += 1;
                }
                proof {
                    assert forall|x: usize|
                        self.selected@.contains(x) <==> ((old(self).selected@.contains(x) && (multi
                            || old(self).same_group(id, x))) || old(self).same_group(id, x)) by {
                        if self.selected@.contains(x) && !os.contains(x) {
                            assert(members@.contains(x));
                            let k = choose|k: int| 0 <= k < members@.len() && members@[k] == x;
                        }
                        if old(self).same_group(id, x) {
                            assert(members@.contains(x));
                            let k = choose|k: int| 0 <= k < members@.len() && members@[k] == x;
                            assert(self.selected@.contains(members@[k]));
                        }
                    }
                }
                true
            }
        } else {
            // the selection is exactly the unit when each side contains the
            // other; with both free of duplicates this is the original's
            // same-length-and-subset test
            let mut members_selected = true;
            let mut i: usize = 0;
            while i < members.len()
                invariant
                    i <= members@.len(),
                    members_selected <==> forall|k: int|
                        0 <= k < i ==> os.contains(#[trigger] members@[k]),
                    os == self.selected@,
                    self == old(self),
                decreases members@.len() - i,
            {
                if !contains_val(&self.selected, members[i]) {
                    members_selected = false;
                }
                i += 1;
            }
            let mut selected_in_unit = true;
            let mut j: usize = 0;
            while j < self.selected.len()
                invariant
                    j <= self.selected@.len(),
                    selected_in_unit <==> forall|k: int|
                        0 <= k < j ==> members@.contains(#[trigger] os[k]),
                    os == self.selected@,
                    self == old(self),
                    forall|x: usize| members@.contains(x) <==> old(self).same_group(id, x),
                decreases self.selected@.len() - j,
            {
                if !contains_val(&members, self.selected[j]) {
                    selected_in_unit = false;
                }
                j += 1;
            }
            let all_selected = members_selected && selected_in_unit;
            proof {
                assert(all_selected <==> (forall|x: usize|
                    os.contains(x) <==> old(self).same_group(id, x))) by {
                    if all_selected {
                        assert forall|x: usize|
                            os.contains(x) <==> old(self).same_group(id, x) by {
                            if os.contains(x) {
                                let k = choose|k: int| 0 <= k < os.len() && os[k] == x;
                                assert(members@.contains(os[k]));
                            }
                            if old(self).same_group(id, x) {
                                assert(members@.contains(x));
                                let k = choose|k: int|
                                    0 <= k < members@.len() && members@[k] == x;
                            }
                        }
                    } else if !members_selected {
                        let k = choose|k: int|
                            0 <= k < members@.len() && !os.contains(#[trigger] members@[k]);
                        assert(members@.contains(members@[k]));
                        assert(old(self).same_group(id, members@[k]));
                    } else {
                        let k = choose|k: int|
                            0 <= k < os.len() && !members@.contains(#[trigger] os[k]);
                        assert(os.contains(os[k]));
                        assert(!old(self).same_group(id, os[k]));
                    }
                }
            }
            if all_selected {
                self.selected.clear();
                false
            } else {
                self.selected.clear();
                let mut i: usize = 0;
                while i < members.len()
                    invariant
                        i <= members@.len(),
                        self.same_but_selected(*old(self)),
                        self.selected@ == members@.subrange(0, i as int),
                    decreases members@.len() - i,
                {
                    self.selected.push(members[i]);
                    proof {
                        assert(self.selected@ =~= members@.subrange(0, i as int + 1));
                    }
                    i += 1;
                }
                proof {
                    assert(self.selected@ =~= members@);
                }
                true
            }
        }
    }


    /// Remove `point_id` from the group containing it, if any; a group left
    /// with fewer than two members is dissolved. Memberships never grow.
    pub fn remove_from_group(&mut self, point_id: usize)
        requires
            old(self).wf(),
        ensures
            final(self).same_but_groups(*old(self)),
            final(self).wf(),
            forall|x: usize|
                in_some_group(final(self).groups@, x) <==> exists|j: int|
                    0 <= j < old(self).groups@.len() && (#[trigger] old(self).groups@[j])@.contains(
                        x,
                    ) && x != point_id && old(self).groups@[j]@.filter(
                        |e: usize| e != point_id,
                    ).len() >= 2,
            final(self).groups@.map_values(|g: Vec<usize>| g@) == groups_without_n(
                old(self).groups@.map_values(|g: Vec<usize>| g@),
                point_id,
                old(self).groups@.len() as int,
            ),
    {
        let ghost og = self.groups@;
        let ghost ogm = og.map_values(|g: Vec<usize>| g@);
        let mut new_groups: Vec<Vec<usize>> = Vec::new();
        let ghost mut srcs: Seq<int> = Seq::empty();
        let mut i: usize = 0;
        proof {
            assert(new_groups@.map_values(|g: Vec<usize>| g@) =~= groups_without_n(
                ogm,
                point_id,
                0,
            ));
        }
        while i < self.groups.len()
            invariant
                i <= self.groups@.len(),
                self == old(self),
                og == self.groups@,
                old(self).wf(),
                srcs.len() == new_groups@.len(),
                forall|k: int| 0 <= k < srcs.len() ==> 0 <= #[trigger] srcs[k] < i,
                forall|k1: int, k2: int|
                    0 <= k1 < k2 < srcs.len() ==> #[trigger] srcs[k1] < #[trigger] srcs[k2],
                forall|k: int|
                    0 <= k < new_groups@.len() ==> nodup((#[trigger] new_groups@[k])@)
                        && new_groups@[k]@.len() >= 2,
                forall|k: int, x: usize|
                    0 <= k < new_groups@.len() ==> ((#[trigger] new_groups@[k]@.contains(x)) <==> (
                    og[srcs[k]]@.contains(x) && x != point_id)),
                forall|j: int|
                    0 <= j < i && (#[trigger] og[j])@.filter(|e: usize| e != point_id).len()
                        >= 2 ==> exists|k: int| 0 <= k < srcs.len() && #[trigger] srcs[k] == j,
                forall|k: int|
                    0 <= k < srcs.len() ==> og[#[trigger] srcs[k]]@.filter(
                        |e: usize| e != point_id,
                    ).len() >= 2,
                ogm == og.map_values(|g: Vec<usize>| g@),
                new_groups@.map_values(|g: Vec<usize>| g@) == groups_without_n(
                    ogm,
                    point_id,
                    i as int,
                ),
            decreases self.groups@.len() - i,
        {
            let ghost pre_groups = new_groups@;
            let ghost pre_srcs = srcs;
            let ghost pre_map = new_groups@.map_values(|g: Vec<usize>| g@);
            let out = remove_val(&self.groups[i], point_id);
            proof {
                lemma_filter_ne_nodup(og[i as int]@, point_id);
                lemma_seq_without_is_filter(og[i as int]@, point_id);
                assert(ogm[i as int] == og[i as int]@);
                assert(out@ == seq_without(ogm[i as int], point_id));
                assert forall|x: usize| #[trigger] out@.contains(x) <==> (og[i as int]@.contains(
                    x,
                ) && x != point_id) by {
                    lemma_filter_ne_member(og[i as int]@, point_id, x);
                }
            }
            if out.len() >= 2 {
                new_groups.push(out);
                proof {
                    srcs = srcs.push(i as int);
                    assert(new_groups@ == pre_groups.push(out));
                    assert(new_groups@.map_values(|g: Vec<usize>| g@) =~= pre_map.push(out@));
                    assert forall|k: int, x: usize|
                        0 <= k < new_groups@.len() implies ((#[trigger] new_groups@[k]@.contains(
                        x,
                    )) <==> (og[srcs[k]]@.contains(x) && x != point_id)) by {
                        if k < pre_groups.len() {
                            assert(new_groups@[k] == pre_groups[k]);
                            assert(srcs[k] == pre_srcs[k]);
                            assert(pre_groups[k]@.contains(x) <==> (og[pre_srcs[k]]@.contains(x)
                                && x != point_id));
                        } else {
                            assert(new_groups@[k] == out);
                            assert(srcs[k] == i as int);
                        }
                    }
                    assert forall|j: int|
                        0 <= j < i + 1 && (#[trigger] og[j])@.filter(
                            |e: usize| e != point_id,
                        ).len() >= 2 implies exists|k: int|
                        0 <= k < srcs.len() && #[trigger] srcs[k] == j by {
                        if j == i {
                            assert(srcs[srcs.len() - 1] == i as int);
                        } else {
                            let k = choose|k: int|
                                0 <= k < pre_srcs.len() && #[trigger] pre_srcs[k] == j;
                            assert(srcs[k] == j);
                        }
                    }
                }
            } else {
                proof {
                    assert(og[i as int]@.filter(|e: usize| e != point_id).len() < 2);
                    assert forall|j: int|
                        0 <= j < i + 1 && (#[trigger] og[j])@.filter(
                            |e: usize| e != point_id,
                        ).len() >= 2 implies exists|k: int|
                        0 <= k < srcs.len() && #[trigger] srcs[k] == j by {
                        let k = choose|k: int|
                            0 <= k < pre_srcs.len() && #[trigger] pre_srcs[k] == j;
                        assert(srcs[k] == j);
                    }
                }
            }
            i += 1;
        }
        self.groups = new_groups;
        proof {
            assert(og.len() == ogm.len());
            assert forall|x: usize|
                in_some_group(self.groups@, x) <==> exists|j: int|
                    0 <= j < og.len() && (#[trigger] og[j])@.contains(x) && x != point_id
                        && og[j]@.filter(|e: usize| e != point_id).len() >= 2 by {
                if in_some_group(self.groups@, x) {
                    let k = choose|k: int|
                        0 <= k < self.groups@.len() && (#[trigger] self.groups@[k])@.contains(x);
                    assert(og[srcs[k]]@.contains(x) && x != point_id);
                    assert(og[srcs[k]]@.filter(|e: usize| e != point_id).len() >= 2);
                }
                if exists|j: int|
                    0 <= j < og.len() && (#[trigger] og[j])@.contains(x) && x != point_id
                        && og[j]@.filter(|e: usize| e != point_id).len() >= 2 {
                    let j = choose|j: int|
                        0 <= j < og.len() && (#[trigger] og[j])@.contains(x) && x != point_id
                            && og[j]@.filter(|e: usize| e != point_id).len() >= 2;
                    let k = choose|k: int| 0 <= k < srcs.len() && #[trigger] srcs[k] == j;
                    assert(self.groups@[k]@.contains(x));
                    assert(in_some_group(self.groups@, x));
                }
            }
            assert(self.wf()) by {
                assert forall|i1: int, j1: int, x: usize|
                    0 <= i1 < self.groups@.len() && 0 <= j1 < self.groups@.len() && i1 != j1
                        && #[trigger] self.groups@[i1]@.contains(x) implies !(
                #[trigger] self.groups@[j1]@.contains(x)) by {
                    if self.groups@[j1]@.contains(x) {
                        let s1 = srcs[i1];
                        let s2 = srcs[j1];
                        assert(s1 != s2) by {
                            if i1 < j1 {
                                assert(srcs[i1] < srcs[j1]);
                            } else {
                                assert(srcs[j1] < srcs[i1]);
                            }
                        }
                        assert(og[s1]@.contains(x) && og[s2]@.contains(x));
                    }
                }
            }
        }
    }

    /// Remove every selected point from its group.
    pub fn ungroup_selected(&mut self)
        requires
            old(self).wf(),
        ensures
            final(self).same_but_groups(*old(self)),
            final(self).wf(),
            forall|x: usize|
                old(self).selected@.contains(x) ==> !in_some_group(final(self).groups@, x),
            forall|x: usize|
                in_some_group(final(self).groups@, x) ==> in_some_group(old(self).groups@, x),
    {
        let mut i: usize = 0;
        while i < self.selected.len()
            invariant
                i <= self.selected@.len(),
                self.same_but_groups(*old(self)),
                self.wf(),
                self.selected@ == old(self).selected@,
                forall|k: int|
                    0 <= k < i ==> !in_some_group(
                        self.groups@,
                        #[trigger] old(self).selected@[k],
                    ),
                forall|x: usize|
                    in_some_group(self.groups@, x) ==> in_some_group(old(self).groups@, x),
            decreases self.selected@.len() - i,
        {
            let pid = self.selected[i];
            let ghost mid = self.groups@;
            self.remove_from_group(pid);
            proof {
                assert forall|k: int|
                    0 <= k < i + 1 implies !in_some_group(
                    self.groups@,
                    #[trigger] old(self).selected@[k],
                ) by {
                    let xk = old(self).selected@[k];
                    if in_some_group(self.groups@, xk) {
                        assert(xk != pid);
                        let j = choose|j: int|
                            0 <= j < mid.len() && (#[trigger] mid[j])@.contains(xk) && xk != pid
                                && mid[j]@.filter(|e: usize| e != pid).len() >= 2;
                        assert(in_some_group(mid, xk));
                    }
                }
                assert forall|x: usize|
                    in_some_group(self.groups@, x) implies in_some_group(
                    old(self).groups@,
                    x,
                ) by {
                    if in_some_group(self.groups@, x) {
                        let j = choose|j: int|
                            0 <= j < mid.len() && (#[trigger] mid[j])@.contains(x) && x != pid
                                && mid[j]@.filter(|e: usize| e != pid).len() >= 2;
                        assert(in_some_group(mid, x));
                    }
                }
            }
            i += 1;
        }
    }

    /// Register the current selection, two or more points, as a new group;
    /// each member first leaves any group it was in, so groups stay
    /// pairwise disjoint. A smaller selection changes nothing.
    pub fn create_group_from_selected(&mut self)
        requires
            old(self).wf(),
        ensures
            final(self).wf(),
            old(self).selected@.len() < 2 ==> *final(self) == *old(self),
            final(self).selected@ == old(self).selected@,
            final(self).zoom == old(self).zoom && final(self).rotation == old(self).rotation
                && final(self).quaternion == old(self).quaternion && final(self).show_grid == old(self).show_grid && final(self).show_hidden == old(self).show_hidden && final(self).show_center == old(self).show_center,
            old(self).selected@.len() >= 2 ==> final(self).groups@.len() >= 1 && (final(self).groups@.last())@ == old(self).selected@,
            old(self).selected@.len() >= 2 ==> forall|x: usize|
                old(self).selected@.contains(x) ==> in_some_group(final(self).groups@, x),
    {
        if self.selected.len() < 2 {
            return ;
        }
        self.ungroup_selected();
        let ghost mid = self.groups@;
        let mut sel_copy: Vec<usize> = Vec::new();
        let mut i: usize = 0;
        while i < self.selected.len()
            invariant
                i <= self.selected@.len(),
                sel_copy@ == self.selected@.subrange(0, i as int),

            decreases self.selected@.len() - i,
        {
            let v = self.selected[i];
            sel_copy.push(v);
            proof {
                assert(sel_copy@ =~= self.selected@.subrange(0, i as int + 1));
            }
            i += 1;
        }
        proof {
            assert(sel_copy@ =~= self.selected@);
        }
        let ghost pre = self.groups@;
        self.groups.push(sel_copy);
        proof {
            assert(self.groups@ == pre.push(sel_copy));
            assert((self.groups@.last())@ == old(self).selected@);
            assert forall|x: usize|
                old(self).selected@.contains(x) implies in_some_group(self.groups@, x) by {
                assert(self.groups@[self.groups@.len() - 1]@.contains(x));
            }
            assert(self.wf()) by {
                assert forall|i1: int|
                    0 <= i1 < self.groups@.len() implies nodup((#[trigger] self.groups@[i1])@)
                    && self.groups@[i1]@.len() >= 2 by {
                    if i1 < pre.len() {
                        assert(self.groups@[i1] == pre[i1]);
                    }
                }
                assert forall|i1: int, j1: int, x: usize|
                    0 <= i1 < self.groups@.len() && 0 <= j1 < self.groups@.len() && i1 != j1
                        && #[trigger] self.groups@[i1]@.contains(x) implies !(
                #[trigger] self.groups@[j1]@.contains(x)) by {
                    if self.groups@[j1]@.contains(x) {
                        if i1 == pre.len() {
                            assert(old(self).selected@.contains(x));
                            assert(self.groups@[j1] == pre[j1]);
                            assert(in_some_group(pre, x));
                        } else if j1 == pre.len() {
                            assert(old(self).selected@.contains(x));
                            assert(self.groups@[i1] == pre[i1]);
                            assert(in_some_group(pre, x));
                        } else {
                            assert(self.groups@[i1] == pre[i1] && self.groups@[j1] == pre[j1]);
                        }
                    }
                }
            }
        }
    }

    /// Renumber every group after the point at `removed_idx` was deleted by
    /// swapping the point at `last_idx` into its slot: membership of
    /// `removed_idx` is dropped, membership of `last_idx` becomes membership
    /// of `removed_idx`, and a group left with fewer than two members is
    /// dissolved.
    pub fn update_group_indices(&mut self, removed_idx: usize, last_idx: usize)
        requires
            old(self).wf(),
        ensures
            final(self).same_but_groups(*old(self)),
            final(self).wf(),
            forall|x: usize|
                in_some_group(final(self).groups@, x) <==> exists|j: int|
                    0 <= j < old(self).groups@.len() && renum_member(
                        (#[trigger] old(self).groups@[j])@,
                        removed_idx,
                        last_idx,
                        x,
                    ) && renum_len(old(self).groups@[j]@, removed_idx) >= 2,
            final(self).groups@.map_values(|g: Vec<usize>| g@) == groups_renum_n(
                old(self).groups@.map_values(|g: Vec<usize>| g@),
                removed_idx,
                last_idx,
                old(self).groups@.len() as int,
            ),
    {
        let ghost og = self.groups@;
        let ghost ogm = og.map_values(|g: Vec<usize>| g@);
        let mut new_groups: Vec<Vec<usize>> = Vec::new();
        let ghost mut srcs: Seq<int> = Seq::empty();
        let mut i: usize = 0;
        proof {
            assert(new_groups@.map_values(|g: Vec<usize>| g@) =~= groups_renum_n(
                ogm,
                removed_idx,
                last_idx,
                0,
            ));
        }
        while i < self.groups.len()
            invariant
                i <= self.groups@.len(),
                self == old(self),
                og == self.groups@,
                old(self).wf(),
                srcs.len() == new_groups@.len(),
                forall|k: int| 0 <= k < srcs.len() ==> 0 <= #[trigger] srcs[k] < i,
                forall|k1: int, k2: int| 0 <= k1 < k2 < srcs.len() ==> #[trigger] srcs[k1] < #[trigger] srcs[k2],
                forall|k: int|
                    0 <= k < new_groups@.len() ==> nodup((#[trigger] new_groups@[k])@)
                        && new_groups@[k]@.len() >= 2,
                forall|k: int, x: usize|
                    0 <= k < new_groups@.len() ==> ((#[trigger] new_groups@[k]@.contains(x))
                        <==> renum_member(og[srcs[k]]@, removed_idx, last_idx, x)),
                forall|j: int|
                    0 <= j < i && renum_len((#[trigger] og[j])@, removed_idx) >= 2 ==> exists|
                        k: int,
                    | 0 <= k < srcs.len() && #[trigger] srcs[k] == j,
                forall|k: int|
                    0 <= k < srcs.len() ==> renum_len(og[#[trigger] srcs[k]]@, removed_idx) >= 2,
                ogm == og.map_values(|g: Vec<usize>| g@),
                new_groups@.map_values(|g: Vec<usize>| g@) == groups_renum_n(
                    ogm,
                    removed_idx,
                    last_idx,
                    i as int,
                ),
            decreases self.groups@.len() - i,
        {
            let ghost pre_groups = new_groups@;
            let ghost pre_srcs = srcs;
            let ghost pre_map = new_groups@.map_values(|g: Vec<usize>| g@);
            let out = renum_group(&self.groups[i], removed_idx, last_idx);
            proof {
                assert(ogm[i as int] == og[i as int]@);
                assert(out@ == renum_seq(ogm[i as int], removed_idx, last_idx));
            }
            if out.len() >= 2 {
                new_groups.push(out);
                proof {
                    srcs = srcs.push(i as int);
                    assert(new_groups@ == pre_groups.push(out));
                    assert(new_groups@.map_values(|g: Vec<usize>| g@) =~= pre_map.push(out@));
                    assert forall|k: int, x: usize|
                        0 <= k < new_groups@.len() implies ((#[trigger] new_groups@[k]@.contains(
                        x,
                    )) <==> renum_member(og[srcs[k]]@, removed_idx, last_idx, x)) by {
                        if k < pre_groups.len() {
                            assert(new_groups@[k] == pre_groups[k]);
                            assert(srcs[k] == pre_srcs[k]);
                            assert(pre_groups[k]@.contains(x) <==> renum_member(
                                og[pre_srcs[k]]@,
                                removed_idx,
                                last_idx,
                                x,
                            ));
                        } else {
                            assert(new_groups@[k] == out);
                            assert(srcs[k] == i as int);
                        }
                    }
                    assert forall|j: int|
                        0 <= j < i + 1 && renum_len((#[trigger] og[j])@, removed_idx)
                            >= 2 implies exists|k: int|
                        0 <= k < srcs.len() && #[trigger] srcs[k] == j by {
                        if j == i {
                            assert(srcs[srcs.len() - 1] == i as int);
                        } else {
                            let k = choose|k: int|
                                0 <= k < pre_srcs.len() && #[trigger] pre_srcs[k] == j;
                            assert(srcs[k] == j);
                        }
                    }
                }
            } else {
                proof {
                    assert(renum_len(og[i as int]@, removed_idx) < 2);
                    assert forall|j: int|
                        0 <= j < i + 1 && renum_len((#[trigger] og[j])@, removed_idx)
                            >= 2 implies exists|k: int|
                        0 <= k < srcs.len() && #[trigger] srcs[k] == j by {
                        let k = choose|k: int|
                            0 <= k < pre_srcs.len() && #[trigger] pre_srcs[k] == j;
                        assert(srcs[k] == j);
                    }
                }
            }
            i += 1;
        }
        self.groups = new_groups;
        proof {
            assert(og.len() == ogm.len());
            assert forall|x: usize|
                in_some_group(self.groups@, x) <==> exists|j: int|
                    0 <= j < og.len() && renum_member(
                        (#[trigger] og[j])@,
                        removed_idx,
                        last_idx,
                        x,
                    ) && renum_len(og[j]@, removed_idx) >= 2 by {
                if in_some_group(self.groups@, x) {
                    let k = choose|k: int|
                        0 <= k < self.groups@.len() && (#[trigger] self.groups@[k])@.contains(x);
                    assert(renum_member(og[srcs[k]]@, removed_idx, last_idx, x));
                    assert(renum_len(og[srcs[k]]@, removed_idx) >= 2);
                }
                if exists|j: int|
                    0 <= j < og.len() && renum_member(
                        (#[trigger] og[j])@,
                        removed_idx,
                        last_idx,
                        x,
                    ) && renum_len(og[j]@, removed_idx) >= 2 {
                    let j = choose|j: int|
                        0 <= j < og.len() && renum_member(
                            (#[trigger] og[j])@,
                            removed_idx,
                            last_idx,
                            x,
                        ) && renum_len(og[j]@, removed_idx) >= 2;
                    let k = choose|k: int| 0 <= k < srcs.len() && #[trigger] srcs[k] == j;
                    assert(self.groups@[k]@.contains(x));
                    assert(in_some_group(self.groups@, x));
                }
            }
            assert(self.wf()) by {
                assert forall|i1: int, j1: int, x: usize|
                    0 <= i1 < self.groups@.len() && 0 <= j1 < self.groups@.len() && i1 != j1
                        && #[trigger] self.groups@[i1]@.contains(x) implies !(
                #[trigger] self.groups@[j1]@.contains(x)) by {
                    if self.groups@[j1]@.contains(x) {
                        let s1 = srcs[i1];
                        let s2 = srcs[j1];
                        assert(s1 != s2) by {
                            if i1 < j1 {
                                assert(srcs[i1] < srcs[j1]);
                            } else {
                                assert(srcs[j1] < srcs[i1]);
                            }
                        }
                        assert(renum_member(og[s1]@, removed_idx, last_idx, x));
                        assert(renum_member(og[s2]@, removed_idx, last_idx, x));
                        if removed_idx != last_idx && x == removed_idx {
                            assert(og[s1]@.contains(last_idx) && og[s2]@.contains(last_idx));
                        } else {
                            assert(og[s1]@.contains(x) && og[s2]@.contains(x));
                        }
                    }
                }
            }
        }
    }
}

} // verus!
