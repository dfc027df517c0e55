//! Which page a sliding pager shows, where it is heading, and which pages
//! are laid out while it slides.

use vstd::prelude::*;

verus! {

/// The last valid page index of `page_count` pages (0 for none).
pub open spec fn last_page(page_count: int) -> int {
    if page_count >= 1 {
        page_count - 1
    } else {
        0
    }
}

/// `index` clamped to the last page.
pub open spec fn clamp_page(index: int, page_count: int) -> int {
    if index < last_page(page_count) {
        index
    } else {
        last_page(page_count)
    }
}

/// Where a pager is and where it is heading.
#[derive(Debug, Clone, Copy, PartialEq, Eq, Structural)]
pub struct Switch {
    /// The page shown at rest.
    pub current: usize,
    /// The page a running slide is heading for.
    pub pending: Option<usize>,
}

/// A page to invalidate: every page from `first` through `last`.
#[derive(Debug, Clone, Copy, PartialEq, Eq, Structural)]
pub struct PageRange {
    /// The first page of the range.
    pub first: usize,
    /// The last page of the range, included.
    pub last: usize,
}

/// The switch and the pages to record afresh after a rebuild with
/// `page_count` pages of which `requested` should be shown.
pub open spec fn spec_rebuild(switch: Switch, page_count: int, requested: int) -> (Switch, Option<PageRange>) {
    let current = clamp_page(switch.current as int, page_count);
    let pending = match switch.pending {
        Some(p) => Some(clamp_page(p as int, page_count) as usize),
        None => None,
    };
    let wanted = clamp_page(requested, page_count);
    let heading = match pending {
        Some(p) => p as int,
        None => current,
    };
    if heading == wanted {
        (Switch { current: current as usize, pending }, None)
    } else {
        (
            Switch { current: current as usize, pending: Some(wanted as usize) },
            Some(
                PageRange {
                    first: if current < wanted { current as usize } else { wanted as usize },
                    last: if current < wanted { wanted as usize } else { current as usize },
                },
            ),
        )
    }
}

/// Whether every index the switch holds names a page.
pub open spec fn in_range(switch: Switch, page_count: int) -> bool {
    &&& switch.current <= last_page(page_count)
    &&& switch.pending matches Some(p) ==> p <= last_page(page_count)
}

/// After a rebuild the switch heads for the requested page (clamped to the
/// last one), every index it holds names a page, and the pages handed back
/// to be recorded afresh run from the page it leaves to the page it heads
/// for.
pub proof fn lemma_rebuild_heads_for_request(switch: Switch, page_count: int, requested: int)
    requires
        0 <= page_count <= usize::MAX,
        0 <= requested,
    ensures
        ({
            let (next, passed) = spec_rebuild(switch, page_count, requested);
            &&& next.spec_heading_to() == clamp_page(requested, page_count)
            &&& in_range(next, page_count)
            &&& passed matches Some(range) ==> range.first <= next.current <= range.last
                && range.first <= clamp_page(requested, page_count) <= range.last
        }),
{
}

/// Rebuilding again with the same pages and the same request changes
/// nothing and records nothing afresh: an idle rebuild mid-slide keeps the
/// slide's track.
pub proof fn lemma_rebuild_is_idempotent(switch: Switch, page_count: int, requested: int)
    requires
        0 <= page_count <= usize::MAX,
        0 <= requested,
    ensures
        ({
            let (once, _) = spec_rebuild(switch, page_count, requested);
            let (twice, passed) = spec_rebuild(once, page_count, requested);
            &&& twice == once
            &&& passed.is_none()
        }),
{
}

impl Switch {
    /// The page the switch is heading for: the pending page if a slide is
    /// running, otherwise the current one.
    pub open spec fn spec_heading_to(self) -> usize {
        match self.pending {
            Some(page) => page,
            None => self.current,
        }
    }

    /// A switch over `page_count` pages showing `requested`, clamped to the
    /// last page; nothing pending.
    pub fn new(page_count: usize, requested: usize) -> (switch: Self)
        ensures
            switch.current == clamp_page(requested as int, page_count as int),
            switch.pending.is_none(),
    {
        let last = if page_count >= 1 {
            page_count - 1
        } else {
            0
        };
        Switch { current: if requested < last { requested } else { last }, pending: None }
    }

    /// The page the switch is heading for.
    pub fn heading_to(&self) -> (page: usize)
        ensures
            page == self.spec_heading_to(),
    {
        match self.pending {
            Some(page) => page,
            None => self.current,
        }
    }

    /// Adopts a rebuild: `page_count` pages, of which `requested` should be
    /// shown.
    ///
    /// Indices recorded against more pages are clamped to the last one.
    /// When the switch is not already heading for the requested page (also
    /// clamped), that page becomes the pending one and the pages the slide
    /// will pass over, from the current page to the requested one, are
    /// returned to be recorded afresh.
    pub fn rebuild(&mut self, page_count: usize, requested: usize) -> (passed: Option<PageRange>)
        ensures
            (*final(self), passed) == spec_rebuild(*old(self), page_count as int, requested as int),
    {
        let last = if page_count >= 1 {
            page_count - 1
        } else {
            0
        };
        if self.current > last {
            self.current = last;
        }
        self.pending = match self.pending {
            Some(p) => Some(if p < last { p } else { last }),
            None => None,
        };
        let wanted = if requested < last {
            requested
        } else {
            last
        };
        let heading = self.heading_to();
        if heading != wanted {
            self.pending = Some(wanted);
            let from = self.current;
            Some(
                PageRange {
                    first: if from < wanted { from } else { wanted },
                    last: if from < wanted { wanted } else { from },
                },
            )
        } else {
            None
        }
    }

    /// Commits the pending page once the slide has settled: only on a
    /// redraw, only when nothing animates, and only if a page is pending.
    /// Returns whether it did.
    pub fn arrive(&mut self, redraw: bool, animating: bool) -> (arrived: bool)
        ensures
            arrived == (redraw && !animating && old(self).pending.is_some()),
            arrived ==> final(self).current == old(self).pending.unwrap() && final(self).pending.is_none(),
            !arrived ==> *final(self) == *old(self),
    {
        if redraw && !animating {
            if let Some(next) = self.pending {
                self.current = next;
                self.pending = None;
                return true;
            }
        }
        false
    }
}

/// Whether `s` is strictly ascending.
pub open spec fn strictly_ascending(s: Seq<usize>) -> bool {
    forall|i: int, j: int| 0 <= i < j < s.len() ==> s[i] < s[j]
}

/// Adds `x` to a strictly ascending list, where it belongs, unless it is
/// already there.
fn insert_ascending(list: &mut Vec<usize>, x: usize)
    requires
        strictly_ascending(old(list)@),
    ensures
        strictly_ascending(final(list)@),
        forall|y: usize| final(list)@.contains(y) <==> (old(list)@.contains(y) || y == x),
        final(list)@.len() <= old(list)@.len() + 1,
{
    let mut i: usize = 0;
    while i < list.len() && list[i] < x
        invariant
            i <= list@.len(),
            strictly_ascending(list@),
            forall|k: int| 0 <= k < i ==> list@[k] < x,
        decreases list@.len() - i,
    {
        i = i + 1;
    }
    if i < list.len() && list[i] == x {
        assert(list@[i as int] == x);
        return;
    }
    let ghost before = list@;
    list.insert(i, x);
    assert forall|y: usize| list@.contains(y) <==> (before.contains(y) || y == x) by {
        if list@.contains(y) {
            let k = choose|k: int| 0 <= k < list@.len() && list@[k] == y;
            if k < i {
                assert(before[k] == y);
            } else if k > i {
                assert(before[k - 1] == y);
            }
        }
        if before.contains(y) {
            let k = choose|k: int| 0 <= k < before.len() && before[k] == y;
            if k < i {
                assert(list@[k] == y);
            } else {
                assert(list@[k + 1] == y);
            }
        }
        if y == x {
            assert(list@[i as int] == x);
        }
    }
}

/// The pages a pager lays out: the one or two under the camera (`first`
/// and `second`) and the page a pending switch is heading for, as long as
/// they exist; ascending, without duplicates, unused slots last.
pub fn visible_indices(first: usize, second: usize, pending: Option<usize>, page_count: usize) -> (visible: [Option<usize>; 3])
    ensures
        forall|v: usize|
            ((visible[0] == Some(v) || visible[1] == Some(v) || visible[2] == Some(v)) <==> (v
                < page_count && (v == first || v == second || pending == Some(v)))),
        visible[0].is_none() ==> visible[1].is_none(),
        visible[1].is_none() ==> visible[2].is_none(),
        visible[0].is_some() && visible[1].is_some() ==> visible[0].unwrap() < visible[1].unwrap(),
        visible[1].is_some() && visible[2].is_some() ==> visible[1].unwrap() < visible[2].unwrap(),
{
    let mut list: Vec<usize> = Vec::new();
    if first < page_count {
        insert_ascending(&mut list, first);
    }
    if second < page_count {
        insert_ascending(&mut list, second);
    }
    if let Some(p) = pending {
        if p < page_count {
            insert_ascending(&mut list, p);
        }
    }
    let a = if list.len() > 0 { Some(list[0]) } else { None };
    let b = if list.len() > 1 { Some(list[1]) } else { None };
    let c = if list.len() > 2 { Some(list[2]) } else { None };
    let visible = [a, b, c];
    assert forall|v: usize|
        ((visible[0] == Some(v) || visible[1] == Some(v) || visible[2] == Some(v)) <==> (v
            < page_count && (v == first || v == second || pending == Some(v)))) by {
        if list@.contains(v) {
            let k = choose|k: int| 0 <= k < list@.len() && list@[k] == v;
            assert(k == 0 || k == 1 || k == 2);
        }
        if visible[0] == Some(v) || visible[1] == Some(v) || visible[2] == Some(v) {
            if visible[0] == Some(v) {
                assert(list@[0] == v);
            } else if visible[1] == Some(v) {
                assert(list@[1] == v);
            } else {
                assert(list@[2] == v);
            }
        }
    }
    visible
}

/// The present entries of `slots`, in order.
pub open spec fn flatten(slots: Seq<Option<usize>>) -> Seq<usize>
    decreases slots.len(),
{
    if slots.len() == 0 {
        Seq::empty()
    } else {
        let rest = flatten(slots.drop_last());
        match slots.last() {
            Some(v) => rest.push(v),
            None => rest,
        }
    }
}

/// The laid-out page indices in layout-child order: the present entries of
/// `visible`, in order.
pub fn laid_out_indices(visible: &[Option<usize>; 3]) -> (indices: Vec<usize>)
    ensures
        indices@ == flatten(visible@),
{
    let mut indices: Vec<usize> = Vec::new();
    let mut i: usize = 0;
    while i < 3
        invariant
            i <= 3,
            indices@ == flatten(visible@.subrange(0, i as int)),
        decreases 3 - i,
    {
        assert(visible@.subrange(0, i + 1).drop_last() == visible@.subrange(0, i as int));
        if let Some(v) = visible[i] {
            indices.push(v);
        }
        i = i + 1;
    }
    assert(visible@.subrange(0, 3) == visible@);
    indices
}

/// The pages a page stack lays out: the one or two under the camera that
/// exist, ascending and without duplicates.
pub fn stack_visible_indices(first: usize, second: usize, page_count: usize) -> (visible: Vec<usize>)
    ensures
        strictly_ascending(visible@),
        forall|v: usize| visible@.contains(v) <==> (v < page_count && (v == first || v == second)),
        visible@.len() <= 2,
{
    let mut visible: Vec<usize> = Vec::new();
    if first < page_count {
        insert_ascending(&mut visible, first);
    }
    if second < page_count {
        insert_ascending(&mut visible, second);
    }
    visible
}

} // verus!
