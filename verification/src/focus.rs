//! Which window counts as "active" for a panel, how its label is shown, and
//! the window snapshots sent to the panel.
use vstd::prelude::*;
use crate::text::{
    chars_of, lemma_text_lt_trans, str_eq, string_from, sub_chars, text_less, text_lt, texts, trim_end,
    trim_end_chars,
};

verus! {

/// Protocol object id of a toplevel handle; stable for the handle's lifetime.
pub type ToplevelId = u32;

/// A snapshot of one toplevel window.
#[derive(Debug, PartialEq, Eq)]
pub struct Toplevel {
    pub id: ToplevelId,
    pub app_id: String,
    pub title: String,
    pub activated: bool,
    pub minimized: bool,
    /// Names of the outputs (e.g. `eDP-1`) the window is visible on.
    pub outputs: Vec<String>,
}

/// A toplevel as plain values.
pub struct TopView {
    pub id: ToplevelId,
    pub app_id: Seq<char>,
    pub title: Seq<char>,
    pub activated: bool,
    pub minimized: bool,
    pub outputs: Seq<Seq<char>>,
}

impl View for Toplevel {
    type V = TopView;

    open spec fn view(&self) -> TopView {
        TopView {
            id: self.id,
            app_id: self.app_id@,
            title: self.title@,
            activated: self.activated,
            minimized: self.minimized,
            outputs: texts(self.outputs@),
        }
    }
}

/// The toplevels of a snapshot as plain values.
pub open spec fn tops_view(tops: &[Toplevel]) -> Seq<TopView> {
    tops@.map_values(|t: Toplevel| t@)
}

/// Does some window of `tops` have id `id`?
pub open spec fn present(tops: Seq<TopView>, id: ToplevelId) -> bool {
    exists|i: int| 0 <= i < tops.len() && tops[i].id == id
}

/// Index of the first activated window of `tops`.
pub open spec fn first_active(tops: Seq<TopView>) -> Option<int>
    decreases tops.len(),
{
    if tops.len() == 0 {
        None
    } else {
        match first_active(tops.drop_last()) {
            Some(i) => Some(i),
            None => if tops.last().activated {
                Some(tops.len() - 1)
            } else {
                None
            },
        }
    }
}

/// `order` restricted to ids still present in `tops`.
pub open spec fn keep_present(order: Seq<ToplevelId>, tops: Seq<TopView>) -> Seq<ToplevelId>
    decreases order.len(),
{
    if order.len() == 0 {
        order
    } else if present(tops, order.last()) {
        keep_present(order.drop_last(), tops).push(order.last())
    } else {
        keep_present(order.drop_last(), tops)
    }
}

/// `order` without `id`.
pub open spec fn remove_id(order: Seq<ToplevelId>, id: ToplevelId) -> Seq<ToplevelId>
    decreases order.len(),
{
    if order.len() == 0 {
        order
    } else if order.last() == id {
        remove_id(order.drop_last(), id)
    } else {
        remove_id(order.drop_last(), id).push(order.last())
    }
}

/// The activation history after observing the snapshot `tops`: closed
/// windows are forgotten and the activated window moves to the end.
pub open spec fn observed(order: Seq<ToplevelId>, tops: Seq<TopView>) -> Seq<ToplevelId> {
    let kept = keep_present(order, tops);
    match first_active(tops) {
        Some(i) => if kept.len() > 0 && kept.last() == tops[i].id {
            kept
        } else {
            remove_id(kept, tops[i].id).push(tops[i].id)
        },
        None => kept,
    }
}

/// Is `t` shown on the panel's output `output`? Without an output every
/// window counts, and so does a window on no output.
pub open spec fn on_output(t: TopView, output: Option<Seq<char>>) -> bool {
    match output {
        None => true,
        Some(o) => t.outputs.len() == 0 || t.outputs.contains(o),
    }
}

/// The output to follow: the panel's, when following is on and it is known.
pub open spec fn followed_output(panel_output: Option<Seq<char>>, follow: bool) -> Option<
    Seq<char>,
> {
    match panel_output {
        Some(o) => if follow && o.len() > 0 {
            Some(o)
        } else {
            None
        },
        None => None,
    }
}

/// Can window `t` stand in for the focused one under id `id`?
pub open spec fn fallback_ok(t: TopView, id: ToplevelId, output: Option<Seq<char>>) -> bool {
    t.id == id && !t.minimized && on_output(t, output)
}

/// Index of the first window of `tops` that can stand in under id `id`.
pub open spec fn first_fallback(tops: Seq<TopView>, id: ToplevelId, output: Option<Seq<char>>) -> Option<
    int,
>
    decreases tops.len(),
{
    if tops.len() == 0 {
        None
    } else {
        match first_fallback(tops.drop_last(), id, output) {
            Some(i) => Some(i),
            None => if fallback_ok(tops.last(), id, output) {
                Some(tops.len() - 1)
            } else {
                None
            },
        }
    }
}

/// The most recently activated window of `order` that can stand in.
pub open spec fn latest_fallback(
    order: Seq<ToplevelId>,
    tops: Seq<TopView>,
    output: Option<Seq<char>>,
) -> Option<int>
    decreases order.len(),
{
    if order.len() == 0 {
        None
    } else {
        match first_fallback(tops, order.last(), output) {
            Some(i) => Some(i),
            None => latest_fallback(order.drop_last(), tops, output),
        }
    }
}

/// The window the panel shows: none while nothing is focused; the focused
/// window when it is on the followed output; else the most recently
/// focused, non-minimized window on that output.
pub open spec fn selected(
    order: Seq<ToplevelId>,
    tops: Seq<TopView>,
    output: Option<Seq<char>>,
) -> Option<int> {
    match first_active(tops) {
        None => None,
        Some(i) => if on_output(tops[i], output) {
            Some(i)
        } else {
            latest_fallback(order, tops, output)
        },
    }
}

/// Remembers the order in which windows were activated (most recent last).
#[derive(Debug)]
pub struct FocusHistory {
    order: Vec<ToplevelId>,
}

/// Index of the first activated window.
fn find_active(tops: &[Toplevel]) -> (r: Option<usize>)
    ensures
        r matches Some(i) ==> i < tops@.len(),
        match r {
            Some(k) => first_active(tops_view(tops)) == Some(k as int),
            None => first_active(tops_view(tops)) is None,
        },
{
    let ghost tv = tops_view(tops);
    let mut i: usize = 0;
    while i < tops.len()
        invariant
            i <= tops@.len(),
            tv == tops_view(tops),
            first_active(tv.take(i as int)) is None,
        decreases tops@.len() - i,
    {
        proof {
            assert(tv.take(i + 1).drop_last() =~= tv.take(i as int));
        }
        if tops[i].activated {
            assert(first_active(tv.take(i + 1)) == Some(i as int));
            proof {
                lemma_first_active_prefix(tv, i as int + 1);
            }
            return Some(i);
        }
        i = i + 1;
    }
    assert(tv.take(i as int) =~= tv);
    None
}

/// A found prefix answer is the answer for the whole snapshot.
proof fn lemma_first_active_prefix(tv: Seq<TopView>, k: int)
    requires
        0 <= k <= tv.len(),
        first_active(tv.take(k)) is Some,
    ensures
        first_active(tv) == first_active(tv.take(k)),
    decreases tv.len() - k,
{
    if k < tv.len() {
        assert(tv.take(k + 1).drop_last() =~= tv.take(k));
        lemma_first_active_prefix(tv, k + 1);
    } else {
        assert(tv.take(k) =~= tv);
    }
}

/// Is some window of `tops` the one with id `id`?
fn is_present(tops: &[Toplevel], id: ToplevelId) -> (r: bool)
    ensures
        r == present(tops_view(tops), id),
{
    let ghost tv = tops_view(tops);
    let mut i: usize = 0;
    while i < tops.len()
        invariant
            i <= tops@.len(),
            tv == tops_view(tops),
            forall|j: int| 0 <= j < i ==> tv[j].id != id,
        decreases tops@.len() - i,
    {
        if tops[i].id == id {
            assert(tv[i as int].id == id);
            return true;
        }
        i = i + 1;
    }
    false
}

/// Is the window shown on output `output`?
#[verifier::loop_isolation(false)]
fn shown_on(t: &Toplevel, output: Option<&str>) -> (r: bool)
    ensures
        r == on_output(t@, match output {
            Some(o) => Some(o@),
            None => None,
        }),
{
    match output {
        None => true,
        Some(o) => {
            if t.outputs.len() == 0 {
                assert(t@.outputs.len() == 0);
                return true;
            }
            let ghost ov = t@.outputs;
            let mut i: usize = 0;
            while i < t.outputs.len()
                invariant
                    i <= t.outputs@.len(),
                    ov == texts(t.outputs@),
                    forall|j: int| 0 <= j < i ==> ov[j] != o@,
                decreases t.outputs@.len() - i,
            {
                if str_eq(t.outputs[i].as_str(), o) {
                    assert(t@.outputs[i as int] == o@);
                    assert(t@.outputs.contains(o@));
                    return true;
                }
                i = i + 1;
            }
            assert(!ov.contains(o@));
            false
        },
    }
}

/// Index of the first window that can stand in under id `id`.
fn find_fallback(tops: &[Toplevel], id: ToplevelId, output: Option<&str>) -> (r: Option<usize>)
    ensures
        r matches Some(i) ==> i < tops@.len(),
        ({
            let out = match output {
                Some(o) => Some(o@),
                None => None,
            };
            match r {
                Some(k) => first_fallback(tops_view(tops), id, out) == Some(k as int),
                None => first_fallback(tops_view(tops), id, out) is None,
            }
        }),
{
    let ghost out = match output {
        Some(o) => Some(o@),
        None => None,
    };
    let ghost tv = tops_view(tops);
    let mut i: usize = 0;
    while i < tops.len()
        invariant
            i <= tops@.len(),
            tv == tops_view(tops),
            out == match output {
                Some(o) => Some(o@),
                None => None::<Seq<char>>,
            },
            first_fallback(tv.take(i as int), id, out) is None,
        decreases tops@.len() - i,
    {
        proof {
            assert(tv.take(i + 1).drop_last() =~= tv.take(i as int));
        }
        let t = &tops[i];
        if t.id == id && !t.minimized && shown_on(t, output) {
            assert(first_fallback(tv.take(i + 1), id, out) == Some(i as int));
            proof {
                lemma_first_fallback_prefix(tv, id, out, i as int + 1);
            }
            return Some(i);
        }
        i = i + 1;
    }
    assert(tv.take(i as int) =~= tv);
    None
}

/// A found prefix answer is the answer for the whole snapshot.
proof fn lemma_first_fallback_prefix(
    tv: Seq<TopView>,
    id: ToplevelId,
    out: Option<Seq<char>>,
    k: int,
)
    requires
        0 <= k <= tv.len(),
        first_fallback(tv.take(k), id, out) is Some,
    ensures
        first_fallback(tv, id, out) == first_fallback(tv.take(k), id, out),
    decreases tv.len() - k,
{
    if k < tv.len() {
        assert(tv.take(k + 1).drop_last() =~= tv.take(k));
        lemma_first_fallback_prefix(tv, id, out, k + 1);
    } else {
        assert(tv.take(k) =~= tv);
    }
}

impl FocusHistory {
    /// No window is remembered twice.
    #[verifier::type_invariant]
    spec fn history_wf(self) -> bool {
        no_repeats(self.order@)
    }

    /// An empty history.
    pub fn new() -> (h: Self)
        ensures
            h.order() == Seq::<ToplevelId>::empty(),
    {
        FocusHistory { order: Vec::new() }
    }

    /// Activation order, most recent last.
    pub closed spec fn order(&self) -> Seq<ToplevelId> {
        self.order@
    }

    /// Activation order, most recent last.
    pub fn order_ids(&self) -> (r: &[ToplevelId])
        ensures
            r@ == self.order(),
            no_repeats(r@),
    {
        proof {
            use_type_invariant(self);
        }
        self.order.as_slice()
    }

    /// Update the history from a fresh snapshot of all toplevels.
    #[verifier::loop_isolation(false)]
    pub fn observe(&mut self, toplevels: &[Toplevel])
        ensures
            final(self).order() == observed(old(self).order(), tops_view(toplevels)),
            no_repeats(old(self).order()),
            no_repeats(final(self).order()),
            forall|k: int| 0 <= k < final(self).order().len() ==> present(tops_view(toplevels), #[trigger] final(self).order()[k]),
            forall|k: int|
                0 <= k < final(self).order().len() ==> old(self).order().contains(#[trigger] final(self).order()[k]) || (
                first_active(tops_view(toplevels)) matches Some(i) && final(self).order()[k] == tops_view(toplevels)[i].id),
            forall|k: int|
                0 <= k < old(self).order().len() && present(tops_view(toplevels), #[trigger] old(self).order()[k])
                    ==> final(self).order().contains(old(self).order()[k]),
            first_active(tops_view(toplevels)) is None ==> in_order_of(final(self).order(), old(self).order()),
            first_active(tops_view(toplevels)) matches Some(i) ==> {
                &&& in_order_of(remove_id(final(self).order(), tops_view(toplevels)[i].id), old(self).order())
                &&& final(self).order().len() > 0
                &&& final(self).order().last() == tops_view(toplevels)[i].id
            },
    {
        proof {
            use_type_invariant(&*self);
            law_observe(self.order@, tops_view(toplevels));
            law_observe_keeps_order(self.order@, tops_view(toplevels));
        }
        let ghost tv = tops_view(toplevels);
        let ghost old_order = self.order@;
        let mut kept: Vec<ToplevelId> = Vec::new();
        let mut i: usize = 0;
        while i < self.order.len()
            invariant
                self.order@ == old_order,
                tv == tops_view(toplevels),
                i <= old_order.len(),
                kept@ == keep_present(old_order.take(i as int), tv),
            decreases old_order.len() - i,
        {
            let id = self.order[i];
            proof {
                assert(old_order.take(i + 1).drop_last() =~= old_order.take(i as int));
                assert(old_order.take(i + 1).last() == id);
            }
            if is_present(toplevels, id) {
                kept.push(id);
            }
            i = i + 1;
        }
        assert(old_order.take(i as int) =~= old_order);
        if let Some(a) = find_active(toplevels) {
            let active = toplevels[a].id;
            assert(tv[a as int].id == active);
            let last_is_active = kept.len() > 0 && kept[kept.len() - 1] == active;
            if !last_is_active {
                let mut moved: Vec<ToplevelId> = Vec::new();
                let mut j: usize = 0;
                while j < kept.len()
                    invariant
                        j <= kept@.len(),
                        moved@ == remove_id(kept@.take(j as int), active),
                    decreases kept@.len() - j,
                {
                    proof {
                        assert(kept@.take(j + 1).drop_last() =~= kept@.take(j as int));
                    }
                    if kept[j] != active {
                        moved.push(kept[j]);
                    }
                    j = j + 1;
                }
                assert(kept@.take(j as int) =~= kept@);
                moved.push(active);
                assert(moved@ == observed(old_order, tv));
                kept = moved;
            } else {
                assert(kept@ == observed(old_order, tv));
            }
        } else {
            assert(kept@ == observed(old_order, tv));
        }
        self.order = kept;
    }

    /// Pick the window whose name the panel on `panel_output` should show.
    ///
    /// * Nothing focused (the desktop was clicked) shows nothing.
    /// * The focused window wins if it is on this output, or when output
    ///   following is disabled or the panel's output is unknown.
    /// * Otherwise, when following the output, fall back to the most recently
    ///   focused, non-minimized window on this output.
    #[verifier::loop_isolation(false)]
    pub fn select<'a>(
        &self,
        toplevels: &'a [Toplevel],
        panel_output: Option<&str>,
        follow_output: bool,
    ) -> (r: Option<&'a Toplevel>)
        ensures
            ({
                let po = match panel_output {
                    Some(o) => Some(o@),
                    None => None,
                };
                let tv = tops_view(toplevels);
                match selected(self.order(), tv, followed_output(po, follow_output)) {
                    Some(i) => r is Some && r->0@ == tv[i],
                    None => r is None,
                }
            }),
    {
        let output: Option<&str> = match panel_output {
            Some(o) => if follow_output && !o.is_empty() {
                Some(o)
            } else {
                None
            },
            None => None,
        };
        let ghost out = match output {
            Some(o) => Some(o@),
            None => None::<Seq<char>>,
        };
        let ghost tv = tops_view(toplevels);
        let ghost po = match panel_output {
            Some(o) => Some(o@),
            None => None::<Seq<char>>,
        };
        assert(out == followed_output(po, follow_output));
        let a = match find_active(toplevels) {
            Some(a) => a,
            None => return None,
        };
        assert(tv[a as int] == toplevels@[a as int]@);
        assert(first_active(tv) == Some(a as int));
        assert(selected(self.order(), tv, out) == (if on_output(tv[a as int], out) { Some(a as int) } else { latest_fallback(self.order(), tv, out) }));
        if shown_on(&toplevels[a], output) {
            return Some(&toplevels[a]);
        }
        let mut k: usize = self.order.len();
        assert(self.order@.take(k as int) =~= self.order@);
        while k > 0
            invariant
                k <= self.order@.len(),
                tv == tops_view(toplevels),
                out == match output {
                    Some(o) => Some(o@),
                    None => None::<Seq<char>>,
                },
                latest_fallback(self.order@, tv, out) == latest_fallback(
                    self.order@.take(k as int),
                    tv,
                    out,
                ),
            decreases k,
        {
            let id = self.order[k - 1];
            proof {
                assert(self.order@.take(k as int).drop_last() =~= self.order@.take(k - 1));
                assert(self.order@.take(k as int).last() == id);
            }
            if let Some(i) = find_fallback(toplevels, id, output) {
                assert(tv[i as int] == toplevels@[i as int]@);
                return Some(&toplevels[i]);
            }
            k = k - 1;
        }
        assert(self.order@.take(0) =~= Seq::<ToplevelId>::empty());
        None
    }
}

impl Default for FocusHistory {
    fn default() -> (h: Self)
        ensures
            h.order() == Seq::<ToplevelId>::empty(),
    {
        FocusHistory::new()
    }
}

/// No id occurs twice in `order`.
pub open spec fn no_repeats(order: Seq<ToplevelId>) -> bool {
    forall|i: int, j: int| 0 <= i < j < order.len() ==> order[i] != order[j]
}

proof fn lemma_keep_present(order: Seq<ToplevelId>, tops: Seq<TopView>)
    ensures
        forall|k: int|
            0 <= k < keep_present(order, tops).len() ==> present(
                tops,
                #[trigger] keep_present(order, tops)[k],
            ) && order.contains(keep_present(order, tops)[k]),
        no_repeats(order) ==> no_repeats(keep_present(order, tops)),
    decreases order.len(),
{
    if order.len() > 0 {
        let init = order.drop_last();
        lemma_keep_present(init, tops);
        let r = keep_present(init, tops);
        assert forall|k: int| 0 <= k < r.len() implies order.contains(#[trigger] r[k]) by {
            let j = choose|j: int| 0 <= j < init.len() && init[j] == r[k];
            assert(order[j] == r[k]);
        }
        if present(tops, order.last()) {
            let out = r.push(order.last());
            assert forall|k: int| 0 <= k < out.len() implies present(tops, #[trigger] out[k]) && order.contains(out[k]) by {
                if k < r.len() {
                    assert(out[k] == r[k]);
                } else {
                    assert(out[k] == order[order.len() - 1]);
                }
            }
            if no_repeats(order) {
                assert forall|i: int, j: int| 0 <= i < j < out.len() implies out[i] != out[j] by {
                    if j == out.len() - 1 {
                        let m = choose|m: int| 0 <= m < init.len() && init[m] == r[i];
                        assert(order[m] == out[i]);
                    } else {
                        assert(out[i] == r[i] && out[j] == r[j]);
                    }
                }
            }
        }
    }
}

proof fn lemma_remove_id(order: Seq<ToplevelId>, id: ToplevelId)
    ensures
        forall|k: int|
            0 <= k < remove_id(order, id).len() ==> #[trigger] remove_id(order, id)[k] != id
                && order.contains(remove_id(order, id)[k]),
        no_repeats(order) ==> no_repeats(remove_id(order, id)),
    decreases order.len(),
{
    if order.len() > 0 {
        let init = order.drop_last();
        lemma_remove_id(init, id);
        let r = remove_id(init, id);
        assert forall|k: int| 0 <= k < r.len() implies order.contains(#[trigger] r[k]) by {
            let j = choose|j: int| 0 <= j < init.len() && init[j] == r[k];
            assert(order[j] == r[k]);
        }
        if order.last() != id {
            let out = r.push(order.last());
            assert forall|k: int| 0 <= k < out.len() implies #[trigger] out[k] != id && order.contains(out[k]) by {
                if k < r.len() {
                    assert(out[k] == r[k]);
                } else {
                    assert(out[k] == order[order.len() - 1]);
                }
            }
            if no_repeats(order) {
                assert forall|i: int, j: int| 0 <= i < j < out.len() implies out[i] != out[j] by {
                    if j == out.len() - 1 {
                        let m = choose|m: int| 0 <= m < init.len() && init[m] == r[i];
                        assert(order[m] == out[i]);
                    } else {
                        assert(out[i] == r[i] && out[j] == r[j]);
                    }
                }
            }
        }
    }
}

/// Law of the activation history: after observing a snapshot with a
/// focused window, that window is the most recent entry; every remembered
/// window still exists; and no window is remembered twice.
pub proof fn law_observe(order: Seq<ToplevelId>, tops: Seq<TopView>)
    requires
        no_repeats(order),
    ensures
        no_repeats(observed(order, tops)),
        forall|k: int|
            0 <= k < observed(order, tops).len() ==> present(
                tops,
                #[trigger] observed(order, tops)[k],
            ),
        first_active(tops) matches Some(i) ==> observed(order, tops).len() > 0 && observed(
            order,
            tops,
        ).last() == tops[i].id,
{
    lemma_keep_present(order, tops);
    let kept = keep_present(order, tops);
    if let Some(i) = first_active(tops) {
        lemma_first_active_in(tops);
        if !(kept.len() > 0 && kept.last() == tops[i].id) {
            lemma_remove_id(kept, tops[i].id);
            let r = remove_id(kept, tops[i].id);
            let out = r.push(tops[i].id);
            assert forall|k: int| 0 <= k < out.len() implies present(tops, #[trigger] out[k]) by {
                if k < r.len() {
                    assert(out[k] == r[k]);
                    let j = choose|j: int| 0 <= j < kept.len() && kept[j] == r[k];
                    assert(present(tops, kept[j]));
                } else {
                    assert(tops[i].id == out[k]);
                }
            }
            assert forall|a: int, b: int| 0 <= a < b < out.len() implies out[a] != out[b] by {
                if b == out.len() - 1 {
                    assert(out[a] == r[a]);
                }
                else {
                    assert(out[a] == r[a] && out[b] == r[b]);
                }
            }
        }
    }
}

/// `u` stands before `v` in `order`.
pub open spec fn before_in(order: Seq<ToplevelId>, u: ToplevelId, v: ToplevelId) -> bool {
    exists|p: int, q: int| 0 <= p < q < order.len() && #[trigger] order[p] == u && #[trigger] order[q] == v
}

/// The ids of `sub` stand in `order` in the same relative order.
pub open spec fn in_order_of(sub: Seq<ToplevelId>, order: Seq<ToplevelId>) -> bool {
    forall|x: int, y: int| 0 <= x < y < sub.len() ==> #[trigger] before_in(order, sub[x], sub[y])
}

/// Law of the activation history: observing a snapshot adds no window but
/// the activated one, forgets only windows that are gone, keeps every
/// window still there, and leaves the others in their relative order.
pub proof fn law_observe_keeps_order(order: Seq<ToplevelId>, tops: Seq<TopView>)
    ensures
        forall|k: int|
            0 <= k < observed(order, tops).len() ==> order.contains(#[trigger] observed(order, tops)[k])
                || (first_active(tops) matches Some(i) && observed(order, tops)[k] == tops[i].id),
        forall|k: int| 0 <= k < order.len() && present(tops, #[trigger] order[k]) ==> observed(order, tops).contains(order[k]),
        first_active(tops) is None ==> in_order_of(observed(order, tops), order),
        first_active(tops) matches Some(i) ==> in_order_of(remove_id(observed(order, tops), tops[i].id), order),
{
    let kept = keep_present(order, tops);
    let obs = observed(order, tops);
    lemma_keep_present(order, tops);
    lemma_keep_in_order(order, tops);
    lemma_keep_all_present(order, tops);
    if let Some(i) = first_active(tops) {
        let act = tops[i].id;
        lemma_remove_id(kept, act);
        lemma_remove_in_order(kept, act);
        lemma_remove_keeps_others(kept, act);
        if kept.len() > 0 && kept.last() == act {
            assert(obs == kept);
            lemma_remove_in_order(obs, act);
            lemma_in_order_trans(remove_id(obs, act), obs, order);
        } else {
            let r = remove_id(kept, act);
            assert(obs == r.push(act));
            assert forall|k: int| 0 <= k < obs.len() implies order.contains(#[trigger] obs[k]) || obs[k] == act by {
                if k < r.len() {
                    assert(obs[k] == r[k]);
                    assert(kept.contains(r[k]));
                    let j = choose|j: int| 0 <= j < kept.len() && kept[j] == r[k];
                    assert(order.contains(kept[j]));
                }
            }
            assert forall|k: int| 0 <= k < order.len() && present(tops, #[trigger] order[k]) implies obs.contains(order[k]) by {
                assert(kept.contains(order[k]));
                if order[k] == act {
                    assert(obs[obs.len() - 1] == act);
                } else {
                    let j = choose|j: int| 0 <= j < kept.len() && kept[j] == order[k];
                    assert(r.contains(kept[j]));
                    let m = choose|m: int| 0 <= m < r.len() && r[m] == kept[j];
                    assert(obs[m] == r[m]);
                }
            }
            assert(obs.drop_last() =~= r);
            assert(remove_id(obs, act) == remove_id(r, act));
            lemma_remove_in_order(r, act);
            lemma_in_order_trans(remove_id(r, act), r, kept);
            lemma_in_order_trans(remove_id(r, act), kept, order);
        }
    } else {
        assert(obs == kept);
        assert forall|k: int| 0 <= k < obs.len() implies order.contains(#[trigger] obs[k]) by {
            assert(order.contains(kept[k]));
        }
    }
}

/// Order is kept along a chain of subsequences.
proof fn lemma_in_order_trans(a: Seq<ToplevelId>, b: Seq<ToplevelId>, c: Seq<ToplevelId>)
    requires
        in_order_of(a, b),
        in_order_of(b, c),
    ensures
        in_order_of(a, c),
{
    assert forall|x: int, y: int| 0 <= x < y < a.len() implies #[trigger] before_in(c, a[x], a[y]) by {
        assert(before_in(b, a[x], a[y]));
        let (p, q) = choose|p: int, q: int| 0 <= p < q < b.len() && #[trigger] b[p] == a[x] && #[trigger] b[q] == a[y];
        assert(before_in(c, b[p], b[q]));
    }
}

/// The windows kept stand in the history's order.
proof fn lemma_keep_in_order(order: Seq<ToplevelId>, tops: Seq<TopView>)
    ensures
        in_order_of(keep_present(order, tops), order),
    decreases order.len(),
{
    if order.len() > 0 {
        let init = order.drop_last();
        lemma_keep_in_order(init, tops);
        lemma_keep_present(init, tops);
        let r = keep_present(init, tops);
        let out = keep_present(order, tops);
        assert forall|x: int, y: int| 0 <= x < y < out.len() implies #[trigger] before_in(order, out[x], out[y]) by {
            if y < r.len() {
                assert(out[x] == r[x] && out[y] == r[y]);
                assert(before_in(init, r[x], r[y]));
                let (p, q) = choose|p: int, q: int| 0 <= p < q < init.len() && #[trigger] init[p] == r[x] && #[trigger] init[q] == r[y];
                assert(order[p] == init[p] && order[q] == init[q]);
            } else {
                assert(out[x] == r[x]);
                assert(init.contains(r[x]));
                let p = choose|p: int| 0 <= p < init.len() && init[p] == r[x];
                assert(order[p] == init[p]);
                assert(out[y] == order[order.len() - 1]);
                assert(order[p] == out[x] && order[order.len() - 1] == out[y]);
            }
        }
    }
}

/// Every window of the history that is still there is kept.
proof fn lemma_keep_all_present(order: Seq<ToplevelId>, tops: Seq<TopView>)
    ensures
        forall|k: int| 0 <= k < order.len() && present(tops, #[trigger] order[k]) ==> keep_present(order, tops).contains(order[k]),
    decreases order.len(),
{
    if order.len() > 0 {
        let init = order.drop_last();
        lemma_keep_all_present(init, tops);
        let r = keep_present(init, tops);
        let out = keep_present(order, tops);
        assert forall|k: int| 0 <= k < order.len() && present(tops, #[trigger] order[k]) implies out.contains(order[k]) by {
            if k < init.len() {
                assert(init[k] == order[k]);
                assert(r.contains(init[k]));
                let m = choose|m: int| 0 <= m < r.len() && r[m] == init[k];
                if present(tops, order.last()) {
                    assert(out[m] == r[m]);
                }
            } else {
                assert(out[out.len() - 1] == order[k]);
            }
        }
    }
}

/// Removing an id leaves the rest in order.
proof fn lemma_remove_in_order(order: Seq<ToplevelId>, id: ToplevelId)
    ensures
        in_order_of(remove_id(order, id), order),
    decreases order.len(),
{
    if order.len() > 0 {
        let init = order.drop_last();
        lemma_remove_in_order(init, id);
        lemma_remove_id(init, id);
        let r = remove_id(init, id);
        let out = remove_id(order, id);
        assert forall|x: int, y: int| 0 <= x < y < out.len() implies #[trigger] before_in(order, out[x], out[y]) by {
            if y < r.len() {
                assert(out[x] == r[x] && out[y] == r[y]);
                assert(before_in(init, r[x], r[y]));
                let (p, q) = choose|p: int, q: int| 0 <= p < q < init.len() && #[trigger] init[p] == r[x] && #[trigger] init[q] == r[y];
                assert(order[p] == init[p] && order[q] == init[q]);
            } else {
                assert(out[x] == r[x]);
                assert(init.contains(r[x]));
                let p = choose|p: int| 0 <= p < init.len() && init[p] == r[x];
                assert(order[p] == init[p]);
                assert(out[y] == order[order.len() - 1]);
                assert(order[p] == out[x] && order[order.len() - 1] == out[y]);
            }
        }
    }
}

/// Removing an id keeps every other id.
proof fn lemma_remove_keeps_others(order: Seq<ToplevelId>, id: ToplevelId)
    ensures
        forall|k: int| 0 <= k < order.len() && #[trigger] order[k] != id ==> remove_id(order, id).contains(order[k]),
    decreases order.len(),
{
    if order.len() > 0 {
        let init = order.drop_last();
        lemma_remove_keeps_others(init, id);
        let r = remove_id(init, id);
        let out = remove_id(order, id);
        assert forall|k: int| 0 <= k < order.len() && #[trigger] order[k] != id implies out.contains(order[k]) by {
            if k < init.len() {
                assert(init[k] == order[k]);
                assert(r.contains(init[k]));
                let m = choose|m: int| 0 <= m < r.len() && r[m] == init[k];
                if order.last() != id {
                    assert(out[m] == r[m]);
                }
            } else {
                assert(out[out.len() - 1] == order[k]);
            }
        }
    }
}

/// The first activated window is in the snapshot and activated.
proof fn lemma_first_active_in(tops: Seq<TopView>)
    ensures
        first_active(tops) matches Some(i) ==> 0 <= i < tops.len() && tops[i].activated,
        first_active(tops) is None ==> forall|k: int| 0 <= k < tops.len() ==> !(#[trigger] tops[k]).activated,
    decreases tops.len(),
{
    if tops.len() > 0 {
        lemma_first_active_in(tops.drop_last());
        assert forall|k: int| 0 <= k < tops.len() - 1 implies tops.drop_last()[k] == #[trigger] tops[k] by {}
    }
}

/// Law of the panel label: with nothing focused nothing is shown; without
/// output following the focused window is always shown.
pub proof fn law_select_focus(order: Seq<ToplevelId>, tops: Seq<TopView>, po: Option<Seq<char>>)
    ensures
        first_active(tops) is None ==> selected(order, tops, followed_output(po, true)) is None,
        selected(order, tops, followed_output(po, false)) == first_active(tops),
{
}

/// Some window of `tops` can stand in under the id `id`: it is not
/// minimized and is on `output`.
pub open spec fn stands_in(tops: Seq<TopView>, id: ToplevelId, output: Option<Seq<char>>) -> bool {
    exists|j: int| 0 <= j < tops.len() && fallback_ok(tops[j], id, output)
}

/// `order[p]` is the most recently activated id that has a window able to
/// stand in: it has one, and no id activated after it does.
pub open spec fn latest_standing(order: Seq<ToplevelId>, tops: Seq<TopView>, output: Option<Seq<char>>, p: int) -> bool {
    &&& 0 <= p < order.len()
    &&& stands_in(tops, order[p], output)
    &&& forall|q: int| p < q < order.len() ==> !stands_in(tops, #[trigger] order[q], output)
}

proof fn lemma_first_fallback(tops: Seq<TopView>, id: ToplevelId, output: Option<Seq<char>>)
    ensures
        first_fallback(tops, id, output) matches Some(i) ==> 0 <= i < tops.len() && fallback_ok(tops[i], id, output),
        first_fallback(tops, id, output) is None ==> !stands_in(tops, id, output),
    decreases tops.len(),
{
    if tops.len() > 0 {
        lemma_first_fallback(tops.drop_last(), id, output);
        assert forall|j: int| 0 <= j < tops.len() - 1 implies #[trigger] tops.drop_last()[j] == tops[j] by {}
        if first_fallback(tops, id, output) is None {
            assert forall|j: int| 0 <= j < tops.len() implies !fallback_ok(tops[j], id, output) by {
                if j < tops.len() - 1 {
                    assert(tops.drop_last()[j] == tops[j]);
                }
            }
        }
    }
}

proof fn lemma_latest_fallback(order: Seq<ToplevelId>, tops: Seq<TopView>, output: Option<Seq<char>>)
    ensures
        latest_fallback(order, tops, output) matches Some(i) ==> 0 <= i < tops.len() && exists|p: int|
            #[trigger] latest_standing(order, tops, output, p) && fallback_ok(tops[i], order[p], output),
        latest_fallback(order, tops, output) is None ==> forall|p: int|
            0 <= p < order.len() ==> !stands_in(tops, #[trigger] order[p], output),
    decreases order.len(),
{
    if order.len() > 0 {
        let init = order.drop_last();
        let n = order.len() - 1;
        lemma_first_fallback(tops, order.last(), output);
        lemma_latest_fallback(init, tops, output);
        assert(order[n] == order.last());
        assert forall|p: int| 0 <= p < n implies #[trigger] init[p] == order[p] by {}
        match first_fallback(tops, order.last(), output) {
            Some(i) => {
                assert(stands_in(tops, order[n], output));
                assert(latest_standing(order, tops, output, n));
            },
            None => {
                match latest_fallback(init, tops, output) {
                    Some(i) => {
                        let p = choose|p: int| #[trigger] latest_standing(init, tops, output, p) && fallback_ok(tops[i], init[p], output);
                        assert(init[p] == order[p]);
                        assert forall|q: int| p < q < order.len() implies !stands_in(tops, #[trigger] order[q], output) by {
                            if q < n {
                                assert(init[q] == order[q]);
                            }
                        }
                        assert(latest_standing(order, tops, output, p));
                    },
                    None => {
                        assert forall|p: int| 0 <= p < order.len() implies !stands_in(tops, #[trigger] order[p], output) by {
                            if p < n {
                                assert(init[p] == order[p]);
                            }
                        }
                    },
                }
            },
        }
    }
}

/// Law of the panel label when following an output: the focused window is
/// shown when it is on the output; otherwise the window shown is one that
/// stands in (same id, not minimized, on the output) for the most recently
/// activated id that has such a window, and none is shown when no id has one.
pub proof fn law_select_latest_on_output(order: Seq<ToplevelId>, tops: Seq<TopView>, output: Option<Seq<char>>)
    ensures
        first_active(tops) matches Some(a) ==> (on_output(tops[a], output) ==> selected(order, tops, output) == Some(a)),
        first_active(tops) matches Some(a) ==> (!on_output(tops[a], output) ==> match selected(order, tops, output) {
            Some(i) => 0 <= i < tops.len() && exists|p: int|
                #[trigger] latest_standing(order, tops, output, p) && fallback_ok(tops[i], order[p], output),
            None => forall|p: int| 0 <= p < order.len() ==> !stands_in(tops, #[trigger] order[p], output),
        }),
{
    lemma_latest_fallback(order, tops, output);
}

/// The panel label for `s` with at most `max` characters (at least two):
/// longer labels keep their first `max - 1` characters, without trailing
/// whitespace, followed by an ellipsis.
pub open spec fn ellipsized(s: Seq<char>, max: int) -> Seq<char> {
    let m = if max < 2 {
        2
    } else {
        max
    };
    if s.len() <= m {
        s
    } else {
        trim_end(s.take(m - 1)).push('…')
    }
}

/// Shorten `label` to at most `max_chars` characters, ending with an ellipsis.
pub fn ellipsize(label: &str, max_chars: usize) -> (r: String)
    ensures
        r@ == ellipsized(label@, max_chars as int),
{
    let max = if max_chars < 2 {
        2
    } else {
        max_chars
    };
    let chars = chars_of(label);
    if chars.len() <= max {
        return string_from(&chars);
    }
    let kept = sub_chars(&chars, 0, max - 1);
    let mut out = trim_end_chars(&kept);
    out.push('…');
    assert(chars@.subrange(0, max - 1) =~= chars@.take(max - 1));
    string_from(&out)
}

// ---------------------------------------------------------------------------
// Snapshots sent to the panel
// ---------------------------------------------------------------------------

/// Windows as plain values.
pub open spec fn views(s: Seq<Toplevel>) -> Seq<TopView> {
    s.map_values(|t: Toplevel| t@)
}

/// Names in order: no name comes before one that sorts earlier.
pub open spec fn names_sorted(v: Seq<Seq<char>>) -> bool {
    forall|i: int, j: int| 0 <= i < j < v.len() ==> !text_lt(#[trigger] v[j], #[trigger] v[i])
}

/// Windows in order of their ids.
pub open spec fn ids_sorted(v: Seq<TopView>) -> bool {
    forall|i: int, j: int| 0 <= i < j < v.len() ==> (#[trigger] v[i]).id <= (#[trigger] v[j]).id
}

/// `v` sorted by name.
pub(crate) fn sort_names(v: Vec<String>) -> (r: Vec<String>)
    ensures
        names_sorted(texts(r@)),
        texts(r@).to_multiset() == texts(v@).to_multiset(),
{
    let ghost vv = texts(v@);
    let mut out: Vec<String> = Vec::new();
    let mut i: usize = 0;
    assert(vv.take(0) =~= texts(out@));
    while i < v.len()
        invariant
            i <= v@.len(),
            vv == texts(v@),
            names_sorted(texts(out@)),
            texts(out@).to_multiset() == vv.take(i as int).to_multiset(),
        decreases v@.len() - i,
    {
        let x = chars_of(v[i].as_str());
        let mut pos: usize = 0;
        loop
            invariant_except_break
                pos <= out@.len(),
                forall|k: int| 0 <= k < pos ==> !text_lt(x@, #[trigger] texts(out@)[k]),
            ensures
                pos <= out@.len(),
                forall|k: int| 0 <= k < pos ==> !text_lt(x@, #[trigger] texts(out@)[k]),
                pos == out@.len() || text_lt(x@, texts(out@)[pos as int]),
            decreases out@.len() - pos,
        {
            if pos == out.len() {
                break;
            }
            let c = chars_of(out[pos].as_str());
            assert(c@ == texts(out@)[pos as int]);
            if text_less(&x, &c) {
                break;
            }
            pos = pos + 1;
        }
        let ghost before = texts(out@);
        proof {
            assert forall|k: int| pos <= k < before.len() implies !text_lt(#[trigger] before[k], x@) by {
                if text_lt(before[k], x@) {
                    assert(text_lt(x@, before[pos as int]));
                    if k > pos {
                        assert(!text_lt(before[k], before[pos as int]));
                    }
                    lemma_text_lt_trans(before[k], x@, before[pos as int]);
                    crate::text::lemma_text_lt_irreflexive(before[pos as int]);
                }
            }
        }
        out.insert(pos, v[i].as_str().to_owned());
        proof {
            broadcast use vstd::seq_lib::group_to_multiset_ensures;
            assert(texts(out@) =~= before.insert(pos as int, x@));
            vstd::seq_lib::to_multiset_insert(before, pos as int, x@);
            assert(vv.take(i + 1) =~= vv.take(i as int).push(vv[i as int]));
            vstd::seq_lib::to_multiset_build(vv.take(i as int), vv[i as int]);
            assert(texts(out@).to_multiset() =~= vv.take(i + 1).to_multiset());
        }
        i = i + 1;
    }
    assert(vv.take(i as int) =~= vv);
    out
}

/// A window as sent to the panel: its outputs sorted by name, so that the
/// same state always gives the same snapshot.
pub fn snapshot(window: Toplevel) -> (r: Toplevel)
    ensures
        r.id == window.id,
        r@.app_id == window@.app_id,
        r@.title == window@.title,
        r.activated == window.activated,
        r.minimized == window.minimized,
        names_sorted(r@.outputs),
        r@.outputs.to_multiset() == window@.outputs.to_multiset(),
{
    let Toplevel { id, app_id, title, activated, minimized, outputs } = window;
    Toplevel { id, app_id, title, activated, minimized, outputs: sort_names(outputs) }
}

fn same_names(a: &Vec<String>, b: &Vec<String>) -> (r: bool)
    ensures
        r == (texts(a@) == texts(b@)),
{
    if a.len() != b.len() {
        assert(texts(a@).len() != texts(b@).len());
        return false;
    }
    let mut i: usize = 0;
    while i < a.len()
        invariant
            a@.len() == b@.len(),
            i <= a@.len(),
            forall|k: int| 0 <= k < i ==> texts(a@)[k] == texts(b@)[k],
        decreases a@.len() - i,
    {
        if !str_eq(a[i].as_str(), b[i].as_str()) {
            assert(texts(a@)[i as int] != texts(b@)[i as int]);
            return false;
        }
        i = i + 1;
    }
    assert(texts(a@) =~= texts(b@));
    true
}

fn same_windows(a: &[Toplevel], b: &[Toplevel]) -> (r: bool)
    ensures
        r == (views(a@) == views(b@)),
{
    if a.len() != b.len() {
        assert(views(a@).len() != views(b@).len());
        return false;
    }
    let mut i: usize = 0;
    while i < a.len()
        invariant
            a@.len() == b@.len(),
            i <= a@.len(),
            forall|k: int| 0 <= k < i ==> views(a@)[k] == views(b@)[k],
        decreases a@.len() - i,
    {
        let (x, y) = (&a[i], &b[i]);
        assert(views(a@)[i as int] == x@ && views(b@)[i as int] == y@);
        let same = x.id == y.id && str_eq(x.app_id.as_str(), y.app_id.as_str()) && str_eq(
            x.title.as_str(),
            y.title.as_str(),
        ) && x.activated == y.activated && x.minimized == y.minimized && same_names(
            &x.outputs,
            &y.outputs,
        );
        if !same {
            return false;
        }
        i = i + 1;
    }
    assert(views(a@) =~= views(b@));
    true
}

/// The snapshot of the windows to send to the panel: ordered by id, or
/// `None` when it is the one sent last.
pub fn to_send(toplevels: Vec<Toplevel>, last: Option<&[Toplevel]>) -> (r: Option<Vec<Toplevel>>)
    ensures
        match r {
            Some(v) => {
                &&& ids_sorted(views(v@))
                &&& views(v@).to_multiset() == views(toplevels@).to_multiset()
                &&& last matches Some(l) ==> views(l@) != views(v@)
            },
            None => {
                &&& last is Some
                &&& ids_sorted(views(last->0@))
                &&& views(last->0@).to_multiset() == views(toplevels@).to_multiset()
            },
        },
{
    let ghost tv = views(toplevels@);
    let mut sorted: Vec<Toplevel> = Vec::new();
    let mut rest = toplevels;
    proof {
        broadcast use vstd::seq_lib::group_to_multiset_ensures, vstd::multiset::group_multiset_axioms;
        vstd::multiset::lemma_multiset_empty_len(views(sorted@).to_multiset());
        assert(views(rest@) =~= tv);
        assert(views(sorted@).to_multiset().add(views(rest@).to_multiset()) =~= tv.to_multiset());
    }
    while rest.len() > 0
        invariant
            ids_sorted(views(sorted@)),
            views(sorted@).to_multiset().add(views(rest@).to_multiset()) == tv.to_multiset(),
        decreases rest@.len(),
    {
        let ghost before_rest = views(rest@);
        let w = rest.pop().unwrap();
        proof {
            broadcast use vstd::seq_lib::group_to_multiset_ensures;
            assert(before_rest =~= views(rest@).push(w@));
            vstd::seq_lib::to_multiset_build(views(rest@), w@);
        }
        let mut pos: usize = 0;
        while pos < sorted.len() && sorted[pos].id <= w.id
            invariant
                pos <= sorted@.len(),
                forall|k: int| 0 <= k < pos ==> (#[trigger] views(sorted@)[k]).id <= w.id,
            decreases sorted@.len() - pos,
        {
            assert(views(sorted@)[pos as int] == sorted@[pos as int]@);
            pos = pos + 1;
        }
        let ghost before = views(sorted@);
        proof {
            if pos < before.len() {
                assert(before[pos as int] == sorted@[pos as int]@);
            }
        }
        sorted.insert(pos, w);
        proof {
            broadcast use vstd::seq_lib::group_to_multiset_ensures, vstd::multiset::group_multiset_axioms;
            assert(views(sorted@) =~= before.insert(pos as int, sorted@[pos as int]@));
            vstd::seq_lib::to_multiset_insert(before, pos as int, sorted@[pos as int]@);
            assert(ids_sorted(views(sorted@))) by {
                assert forall|i: int, j: int| 0 <= i < j < views(sorted@).len() implies (#[trigger] views(sorted@)[i]).id <= (#[trigger] views(sorted@)[j]).id by {
                    let s = views(sorted@);
                    if j < pos {
                        assert(s[i] == before[i] && s[j] == before[j]);
                    } else if j == pos {
                        assert(s[i] == before[i]);
                    } else if i == pos {
                        assert(s[j] == before[j - 1]);
                        if pos < before.len() {
                            assert(before[pos as int].id <= before[j - 1].id);
                        }
                    } else if i < pos {
                        assert(s[i] == before[i] && s[j] == before[j - 1]);
                    } else {
                        assert(s[i] == before[i - 1] && s[j] == before[j - 1]);
                    }
                }
            }
            assert(views(sorted@).to_multiset().add(views(rest@).to_multiset()) =~= tv.to_multiset());
        }
    }
    proof {
        broadcast use vstd::seq_lib::group_to_multiset_ensures, vstd::multiset::group_multiset_axioms;
        vstd::multiset::lemma_multiset_empty_len(views(rest@).to_multiset());
        assert(views(sorted@).to_multiset() =~= tv.to_multiset());
    }
    match last {
        Some(l) => {
            if same_windows(l, &sorted) {
                None
            } else {
                Some(sorted)
            }
        },
        None => Some(sorted),
    }
}

} // verus!
