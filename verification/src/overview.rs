//! Selection and navigation state for the topic pane: which topics
//! are expanded, which topic is selected, the active search result,
//! and cursor movement over the current visible-topic list.

use crate::text::{has_char, str_eq, views};
use vstd::prelude::*;
use vstd::string::StrSliceExecFns;

verus! {

/// A cursor movement over the visible-topic list. An out-of-range
/// absolute index is clamped to the last element: that is the
/// designed mechanism for Home and End.
pub enum CursorMove {
    Absolute(usize),
    OneUp,
    OneDown,
    PageUp,
    PageDown,
}

/// The position of the last separator in `t`, or a negative value.
pub open spec fn last_sep(t: Seq<char>) -> int
    decreases t.len(),
{
    if t.len() == 0 {
        -1
    } else if t.last() == '/' {
        t.len() - 1
    } else {
        last_sep(t.drop_last())
    }
}

/// The parent topic: everything before the last separator, or
/// nothing for a root-level topic.
pub open spec fn spec_parent(t: Seq<char>) -> Option<Seq<char>> {
    if last_sep(t) < 0 {
        None
    } else {
        Some(t.take(last_sep(t)))
    }
}

pub proof fn lemma_last_sep(t: Seq<char>)
    ensures
        last_sep(t) < 0 ==> !has_char(t, '/'),
        last_sep(t) >= 0 ==> last_sep(t) < t.len() && t[last_sep(t)] == '/',
    decreases t.len(),
{
    if t.len() > 0 && t.last() != '/' {
        lemma_last_sep(t.drop_last());
        if last_sep(t.drop_last()) < 0 {
            if has_char(t, '/') {
                let i = choose|i: int| 0 <= i < t.len() && t[i] == '/';
                assert(i < t.len() - 1);
                assert(t.drop_last()[i] == '/');
                assert(has_char(t.drop_last(), '/'));
            }
        } else {
            assert(t[last_sep(t.drop_last())] == t.drop_last()[last_sep(t.drop_last())]);
        }
    }
}

/// The first position of `t` in `vs`.
pub open spec fn index_of_first(vs: Seq<Seq<char>>, t: Seq<char>) -> Option<int>
    decreases vs.len(),
{
    if vs.len() == 0 {
        None
    } else if vs[0] == t {
        Some(0)
    } else {
        match index_of_first(vs.drop_first(), t) {
            None => None,
            Some(i) => Some(i + 1),
        }
    }
}

proof fn lemma_index_of_first_none(vs: Seq<Seq<char>>, t: Seq<char>)
    requires
        forall|x: int| 0 <= x < vs.len() ==> vs[x] != t,
    ensures
        index_of_first(vs, t) is None,
    decreases vs.len(),
{
    if vs.len() > 0 {
        assert forall|x: int| 0 <= x < vs.drop_first().len() implies vs.drop_first()[x] != t by {
            assert(vs.drop_first()[x] == vs[x + 1]);
        }
        lemma_index_of_first_none(vs.drop_first(), t);
    }
}

proof fn lemma_index_of_first_exact(vs: Seq<Seq<char>>, t: Seq<char>, j: int)
    requires
        0 <= j < vs.len(),
        vs[j] == t,
        forall|x: int| 0 <= x < j ==> vs[x] != t,
    ensures
        index_of_first(vs, t) == Some(j),
    decreases j,
{
    if j > 0 {
        assert forall|x: int| 0 <= x < j - 1 implies vs.drop_first()[x] != t by {
            assert(vs.drop_first()[x] == vs[x + 1]);
        }
        assert(vs.drop_first()[j - 1] == vs[j]);
        lemma_index_of_first_exact(vs.drop_first(), t, j - 1);
    }
}

/// The raw target index of a cursor movement, before clamping.
pub open spec fn target_of(cur: Option<int>, mv: CursorMove, page: int) -> int {
    match mv {
        CursorMove::Absolute(i) => i as int,
        CursorMove::OneUp => match cur {
            None => usize::MAX as int,
            Some(i) => if i >= 1 {
                i - 1
            } else {
                0
            },
        },
        CursorMove::OneDown => match cur {
            None => 0,
            Some(i) => if i + 1 <= usize::MAX {
                i + 1
            } else {
                usize::MAX as int
            },
        },
        CursorMove::PageUp => match cur {
            None => usize::MAX as int,
            Some(i) => if i >= page {
                i - page
            } else {
                0
            },
        },
        CursorMove::PageDown => match cur {
            None => 0,
            Some(i) => if i + page <= usize::MAX {
                i + page
            } else {
                usize::MAX as int
            },
        },
    }
}

/// How one cursor movement over the visible list `vs` takes the
/// controller from `o` to `n`: resolve the current index, move,
/// clamp into range, select the landing topic, and report whether
/// the selection changed.
pub open spec fn select_rel(
    o: TopicOverview,
    n: TopicOverview,
    vs: Seq<Seq<char>>,
    mv: CursorMove,
    different: bool,
) -> bool {
    let cur = match o.selected() {
        Some(t) => index_of_first(vs, t),
        None => None,
    };
    let raw = target_of(cur, mv, o.page_jump());
    let limit: int = if vs.len() > 0 {
        vs.len() - 1
    } else {
        0
    };
    let idx: int = if raw < limit {
        raw
    } else {
        limit
    };
    &&& n.opened() == o.opened()
    &&& n.query() == o.query()
    &&& n.view_state() == o.view_state()
    &&& n.selected() == (if vs.len() > 0 {
        Some(vs[idx])
    } else {
        None::<Seq<char>>
    })
    &&& different == (n.selected() != o.selected())
}

/// Where a click lands in the visible list: inside the last-drawn
/// pane (its one-cell border excluded) it is the row offset plus the
/// scroll offset; anywhere else it is nothing.
pub open spec fn click_index(o: TopicOverview, column: u16, row: u16) -> Option<int> {
    let (x, y, w, h, off) = o.view_state();
    if h > 2 && x <= column < x + w && y < row < y + h - 1 {
        Some(
            if off + (row - y - 1) <= usize::MAX {
                off + (row - y - 1)
            } else {
                usize::MAX as int
            },
        )
    } else {
        None
    }
}

/// Tracks expansion, selection, search results, and the geometry of
/// the last-drawn pane.
pub struct TopicOverview {
    /// Full topic strings currently expanded; unique.
    opened_topics: Vec<String>,
    /// The selected full topic string, if any.
    selected_topic: Option<String>,
    /// The topic set of the last search, fed to the query filter.
    searched_topic: Option<Vec<String>>,
    /// Pane geometry at the last draw: left column, top row, width,
    /// height (the page jump is half of this height).
    area_x: u16,
    area_y: u16,
    area_width: u16,
    area_height: u16,
    /// The pane's scroll offset at the last draw.
    offset: usize,
}

impl TopicOverview {
    /// The expanded topics, in insertion order.
    pub closed spec fn opened(self) -> Seq<Seq<char>> {
        views(self.opened_topics@)
    }

    /// The selected topic.
    pub closed spec fn selected(self) -> Option<Seq<char>> {
        match self.selected_topic {
            Some(t) => Some(t@),
            None => None,
        }
    }

    /// The active query filter, when a search was run.
    pub closed spec fn query(self) -> Option<Seq<Seq<char>>> {
        match self.searched_topic {
            Some(v) => Some(views(v@)),
            None => None,
        }
    }

    /// Half the last-drawn pane height: the page-jump step.
    pub closed spec fn page_jump(self) -> int {
        (self.area_height / 2) as int
    }

    /// The last-drawn pane geometry and scroll offset.
    pub closed spec fn view_state(self) -> (u16, u16, u16, u16, usize) {
        (self.area_x, self.area_y, self.area_width, self.area_height, self.offset)
    }

    /// No topic stands in the opened set twice.
    pub closed spec fn wf(self) -> bool {
        forall|k1: int, k2: int|
            0 <= k1 < k2 < self.opened().len() ==> self.opened()[k1] != self.opened()[k2]
    }

    /// Uniqueness of the opened set depends on the opened set alone.
    proof fn lemma_wf_same_opened(a: TopicOverview, b: TopicOverview)
        requires
            a.wf(),
            a.opened() == b.opened(),
        ensures
            b.wf(),
    {
        assert forall|k1: int, k2: int| 0 <= k1 < k2 < b.opened().len() implies b.opened()[k1]
            != b.opened()[k2] by {
            assert(a.opened()[k1] != a.opened()[k2]);
        }
    }

    /// A fresh controller: nothing expanded, nothing selected, no
    /// search, zero geometry.
    pub fn new() -> (r: TopicOverview)
        ensures
            r.wf(),
            r.opened() == Seq::<Seq<char>>::empty(),
            r.selected() is None,
            r.query() is None,
            r.view_state() == (0u16, 0u16, 0u16, 0u16, 0usize),
    {
        let r = TopicOverview {
            opened_topics: Vec::new(),
            selected_topic: None,
            searched_topic: None,
            area_x: 0,
            area_y: 0,
            area_width: 0,
            area_height: 0,
            offset: 0,
        };
        proof {
            assert(r.opened() =~= Seq::<Seq<char>>::empty());
        }
        r
    }

    /// The expanded topic set.
    pub fn get_opened(&self) -> (r: &Vec<String>)
        ensures
            views(r@) == self.opened(),
    {
        &self.opened_topics
    }

    /// The selected topic.
    pub fn get_selected(&self) -> (r: &Option<String>)
        ensures
            match r {
                Some(t) => self.selected() == Some(t@),
                None => self.selected() is None,
            },
    {
        &self.selected_topic
    }

    /// The active query filter.
    pub fn get_query_items(&self) -> (r: &Option<Vec<String>>)
        ensures
            match r {
                Some(v) => self.query() == Some(views(v@)),
                None => self.query() is None,
            },
    {
        &self.searched_topic
    }

    /// Record the pane geometry and scroll offset of the last draw,
    /// for page jumps and click mapping.
    pub fn set_view(&mut self, x: u16, y: u16, width: u16, height: u16, offset: usize)
        requires
            old(self).wf(),
        ensures
            final(self).wf(),
            final(self).opened() == old(self).opened(),
            final(self).selected() == old(self).selected(),
            final(self).query() == old(self).query(),
            final(self).view_state() == (x, y, width, height, offset),
    {
        self.area_x = x;
        self.area_y = y;
        self.area_width = width;
        self.area_height = height;
        self.offset = offset;
        proof {
            Self::lemma_wf_same_opened(*old(self), *self);
        }
    }

    /// Whether `t` is in the expanded set.
    fn opened_contains(&self, t: &String) -> (r: bool)
        ensures
            r == self.opened().contains(t@),
    {
        crate::text::contains_topic(&self.opened_topics, t)
    }

    /// Insert `t` into the expanded set if it is not there yet.
    fn opened_insert(&mut self, t: &String)
        requires
            old(self).wf(),
        ensures
            final(self).wf(),
            forall|tt: Seq<char>|
                final(self).opened().contains(tt) == (old(self).opened().contains(tt) || tt
                    == t@),
            final(self).selected() == old(self).selected(),
            final(self).query() == old(self).query(),
            final(self).view_state() == old(self).view_state(),
    {
        if !self.opened_contains(t) {
            let ghost prev = self.opened();
            self.opened_topics.push(t.clone());
            proof {
                assert(self.opened() =~= prev.push(t@));
                assert forall|tt: Seq<char>| self.opened().contains(tt) == (prev.contains(tt) || tt
                    == t@) by {
                    if self.opened().contains(tt) {
                        let x = choose|x: int|
                            0 <= x < self.opened().len() && self.opened()[x] == tt;
                        if x < prev.len() {
                            assert(prev[x] == tt);
                        }
                    }
                    if prev.contains(tt) {
                        let x = choose|x: int| 0 <= x < prev.len() && prev[x] == tt;
                        assert(self.opened()[x] == tt);
                    }
                    if tt == t@ {
                        assert(self.opened()[prev.len() as int] == tt);
                    }
                }
                assert forall|k1: int, k2: int|
                    0 <= k1 < k2 < self.opened().len() implies self.opened()[k1]
                    != self.opened()[k2] by {
                    if k2 == prev.len() {
                        assert(!prev.contains(t@));
                        assert(prev[k1] != t@);
                    }
                }
            }
        }
    }

    /// Remove `t` from the expanded set; reports whether it was there.
    fn opened_remove(&mut self, t: &String) -> (was: bool)
        requires
            old(self).wf(),
        ensures
            final(self).wf(),
            was == old(self).opened().contains(t@),
            !was ==> *final(self) == *old(self),
            forall|tt: Seq<char>|
                final(self).opened().contains(tt) == (old(self).opened().contains(tt) && tt
                    != t@),
            final(self).selected() == old(self).selected(),
            final(self).query() == old(self).query(),
            final(self).view_state() == old(self).view_state(),
    {
        let n = self.opened_topics.len();
        let mut k: usize = 0;
        while k < n
            invariant
                old(self).wf(),
                *self == *old(self),
                k <= n,
                n == self.opened_topics@.len(),
                forall|x: int| 0 <= x < k ==> self.opened()[x] != t@,
            decreases n - k,
        {
            proof {
                assert(self.opened()[k as int] == self.opened_topics@[k as int]@);
            }
            if str_eq(self.opened_topics[k].as_str(), t.as_str()) {
                let ghost prev = self.opened();
                self.opened_topics.remove(k);
                proof {
                    assert(self.opened() =~= prev.remove(k as int));
                    prev.remove_ensures(k as int);
                    assert(prev.contains(t@)) by {
                        assert(prev[k as int] == t@);
                    }
                    assert forall|tt: Seq<char>| self.opened().contains(tt) == (prev.contains(tt)
                        && tt != t@) by {
                        if self.opened().contains(tt) {
                            let x = choose|x: int|
                                0 <= x < self.opened().len() && self.opened()[x] == tt;
                            if x < k {
                                assert(prev[x] == tt);
                                assert(prev[x] != prev[k as int]);
                            } else {
                                assert(prev[x + 1] == tt);
                                assert(prev[x + 1] != prev[k as int]);
                            }
                        }
                        if prev.contains(tt) && tt != t@ {
                            let x = choose|x: int| 0 <= x < prev.len() && prev[x] == tt;
                            if x < k {
                                assert(self.opened()[x] == tt);
                            } else {
                                assert(x > k);
                                assert(self.opened()[x - 1] == tt);
                            }
                        }
                    }
                    assert forall|k1: int, k2: int|
                        0 <= k1 < k2 < self.opened().len() implies self.opened()[k1]
                        != self.opened()[k2] by {
                        let m1: int = if k1 < k {
                            k1
                        } else {
                            k1 + 1
                        };
                        let m2: int = if k2 < k {
                            k2
                        } else {
                            k2 + 1
                        };
                        assert(self.opened()[k1] == prev[m1]);
                        assert(self.opened()[k2] == prev[m2]);
                    }
                }
                return true;
            }
            k += 1;
        }
        proof {
            if self.opened().contains(t@) {
                let x = choose|x: int| 0 <= x < self.opened().len() && self.opened()[x] == t@;
                assert(self.opened()[x] != t@);
            }
        }
        false
    }

    /// An element-wise copy of a topic list.
    fn clone_topics(v: &Vec<String>) -> (r: Vec<String>)
        ensures
            r@ == v@,
    {
        let n = v.len();
        let mut r: Vec<String> = Vec::new();
        let mut k: usize = 0;
        while k < n
            invariant
                k <= n,
                n == v@.len(),
                r@.len() == k,
                forall|x: int| 0 <= x < k ==> r@[x] == v@[x],
            decreases n - k,
        {
            r.push(v[k].clone());
            k += 1;
        }
        proof {
            assert(r@ =~= v@);
        }
        r
    }

    /// Feed a search result in: it becomes the query filter, and all
    /// result topics are added to the expanded set so the matches
    /// become visible.
    pub fn set_opened(&mut self, new_data: &Vec<String>)
        requires
            old(self).wf(),
        ensures
            final(self).wf(),
            final(self).query() == Some(views(new_data@)),
            forall|tt: Seq<char>|
                final(self).opened().contains(tt) == (old(self).opened().contains(tt) || views(
                    new_data@,
                ).contains(tt)),
            final(self).selected() == old(self).selected(),
            final(self).view_state() == old(self).view_state(),
    {
        let copy = Self::clone_topics(new_data);
        self.searched_topic = Some(copy);
        proof {
            Self::lemma_wf_same_opened(*old(self), *self);
            assert(views(new_data@).take(0) =~= Seq::<Seq<char>>::empty());
        }
        let n = new_data.len();
        let mut k: usize = 0;
        while k < n
            invariant
                self.wf(),
                k <= n,
                n == new_data@.len(),
                self.query() == Some(views(new_data@)),
                self.selected() == old(self).selected(),
                self.view_state() == old(self).view_state(),
                forall|tt: Seq<char>|
                    self.opened().contains(tt) == (old(self).opened().contains(tt) || views(
                        new_data@,
                    ).take(k as int).contains(tt)),
            decreases n - k,
        {
            let ghost before = self.opened();
            self.opened_insert(&new_data[k]);
            proof {
                assert(views(new_data@)[k as int] == new_data@[k as int]@);
                assert forall|tt: Seq<char>| self.opened().contains(tt) == (old(
                    self,
                ).opened().contains(tt) || views(new_data@).take(k + 1).contains(tt)) by {
                    let vk = views(new_data@).take(k + 1);
                    assert(vk.drop_last() =~= views(new_data@).take(k as int));
                    if vk.contains(tt) {
                        let x = choose|x: int| 0 <= x < vk.len() && vk[x] == tt;
                        if x < k {
                            assert(vk.drop_last()[x] == tt);
                        } else {
                            assert(vk[k as int] == tt);
                        }
                    }
                    if views(new_data@).take(k as int).contains(tt) {
                        let x = choose|x: int|
                            0 <= x < k && views(new_data@).take(k as int)[x] == tt;
                        assert(vk[x] == tt);
                    }
                    if tt == views(new_data@)[k as int] {
                        assert(vk[k as int] == tt);
                    }
                }
            }
            k += 1;
        }
        proof {
            assert(views(new_data@).take(n as int) =~= views(new_data@));
        }
    }

    /// Resolve the selected topic's index in the visible list, move
    /// the cursor, clamp into range, and select the landing topic.
    /// Reports whether the selection actually changed.
    pub fn change_selected(&mut self, visible: &Vec<String>, cursor_move: CursorMove) -> (different:
        bool)
        requires
            old(self).wf(),
        ensures
            final(self).wf(),
            select_rel(*old(self), *final(self), views(visible@), cursor_move, different),
    {
        let ghost vs = views(visible@);
        let n = visible.len();
        let mut current: Option<usize> = None;
        match &self.selected_topic {
            Some(sel) => {
                let mut k: usize = 0;
                while k < n && current.is_none()
                    invariant
                        *self == *old(self),
                        old(self).selected() == Some(sel@),
                        k <= n,
                        n == visible@.len(),
                        vs == views(visible@),
                        match current {
                            Some(i) => i < n && vs[i as int] == sel@ && forall|x: int|
                                0 <= x < i ==> vs[x] != sel@,
                            None => forall|x: int| 0 <= x < k ==> vs[x] != sel@,
                        },
                    decreases n - k,
                {
                    proof {
                        assert(vs[k as int] == visible@[k as int]@);
                    }
                    if str_eq(visible[k].as_str(), sel.as_str()) {
                        current = Some(k);
                    }
                    k += 1;
                }
                proof {
                    match current {
                        Some(i) => {
                            lemma_index_of_first_exact(vs, sel@, i as int);
                        },
                        None => {
                            lemma_index_of_first_none(vs, sel@);
                        },
                    }
                }
            },
            None => {},
        }
        let page_jump = (self.area_height / 2) as usize;
        let raw: usize = match cursor_move {
            CursorMove::Absolute(i) => i,
            CursorMove::OneUp => match current {
                None => usize::MAX,
                Some(i) => if i >= 1 {
                    i - 1
                } else {
                    0
                },
            },
            CursorMove::OneDown => match current {
                None => 0,
                Some(i) => if i < usize::MAX {
                    i + 1
                } else {
                    usize::MAX
                },
            },
            CursorMove::PageUp => match current {
                None => usize::MAX,
                Some(i) => if i >= page_jump {
                    i - page_jump
                } else {
                    0
                },
            },
            CursorMove::PageDown => match current {
                None => 0,
                Some(i) => if i <= usize::MAX - page_jump {
                    i + page_jump
                } else {
                    usize::MAX
                },
            },
        };
        let limit: usize = if visible.len() > 0 {
            visible.len() - 1
        } else {
            0
        };
        let new_index: usize = if raw < limit {
            raw
        } else {
            limit
        };
        let next: Option<String> = if visible.len() > 0 {
            proof {
                assert(vs[new_index as int] == visible@[new_index as int]@);
            }
            Some(visible[new_index].clone())
        } else {
            None
        };
        let different = match (&self.selected_topic, &next) {
            (Some(a), Some(b)) => !str_eq(a.as_str(), b.as_str()),
            (None, None) => false,
            _ => true,
        };
        self.selected_topic = next;
        proof {
            Self::lemma_wf_same_opened(*old(self), *self);
        }
        different
    }

    /// Expand the selected topic.
    pub fn open(&mut self)
        requires
            old(self).wf(),
        ensures
            final(self).wf(),
            final(self).selected() == old(self).selected(),
            final(self).query() == old(self).query(),
            final(self).view_state() == old(self).view_state(),
            match old(self).selected() {
                None => final(self).opened() == old(self).opened(),
                Some(t) => forall|tt: Seq<char>|
                    final(self).opened().contains(tt) == (old(self).opened().contains(tt) || tt
                        == t),
            },
    {
        let topic = match &self.selected_topic {
            Some(t) => t.clone(),
            None => {
                return ;
            },
        };
        self.opened_insert(&topic);
    }

    /// Collapse the selected topic; when it was already collapsed,
    /// re-select its parent instead (so repeated collapse walks up
    /// the tree; a root-level topic clears the selection).
    pub fn close(&mut self)
        requires
            old(self).wf(),
        ensures
            final(self).wf(),
            final(self).query() == old(self).query(),
            final(self).view_state() == old(self).view_state(),
            match old(self).selected() {
                None => *final(self) == *old(self),
                Some(t) => {
                    if old(self).opened().contains(t) {
                        &&& final(self).selected() == old(self).selected()
                        &&& forall|tt: Seq<char>|
                            final(self).opened().contains(tt) == (old(self).opened().contains(tt)
                                && tt != t)
                    } else {
                        &&& final(self).opened() == old(self).opened()
                        &&& final(self).selected() == spec_parent(t)
                    }
                },
            },
    {
        let topic = match &self.selected_topic {
            Some(t) => t.clone(),
            None => {
                return ;
            },
        };
        if !self.opened_remove(&topic) {
            let ghost mid = *self;
            self.selected_topic = Self::get_parent(&topic);
            proof {
                Self::lemma_wf_same_opened(mid, *self);
            }
        }
    }

    /// The parent topic string: drop the last slash-delimited
    /// segment; a root-level topic has none.
    fn get_parent(topic: &String) -> (r: Option<String>)
        ensures
            match r {
                Some(p) => spec_parent(topic@) == Some(p@),
                None => spec_parent(topic@) is None,
            },
    {
        let n = topic.as_str().unicode_len();
        let mut k: usize = n;
        proof {
            assert(topic@.take(n as int) =~= topic@);
        }
        while k > 0
            invariant
                k <= n,
                n == topic@.len(),
                last_sep(topic@) == last_sep(topic@.take(k as int)),
            decreases k,
        {
            proof {
                assert(topic@.take(k as int).last() == topic@[k - 1]);
                assert(topic@.take(k as int).drop_last() =~= topic@.take(k - 1));
            }
            if topic.as_str().get_char(k - 1) == '/' {
                proof {
                    assert(last_sep(topic@.take(k as int)) == k - 1);
                }
                let p = topic.as_str().substring_char(0, k - 1).to_owned();
                proof {
                    assert(p@ =~= topic@.take(k - 1));
                }
                return Some(p);
            }
            k -= 1;
        }
        proof {
            assert(topic@.take(0) =~= Seq::<char>::empty());
            assert(last_sep(topic@) < 0);
        }
        None
    }

    /// Toggle the expansion of the selected topic.
    pub fn toggle(&mut self)
        requires
            old(self).wf(),
        ensures
            final(self).wf(),
            final(self).selected() == old(self).selected(),
            final(self).query() == old(self).query(),
            final(self).view_state() == old(self).view_state(),
            match old(self).selected() {
                None => final(self).opened() == old(self).opened(),
                Some(t) => {
                    if old(self).opened().contains(t) {
                        forall|tt: Seq<char>|
                            final(self).opened().contains(tt) == (old(self).opened().contains(tt)
                                && tt != t)
                    } else {
                        forall|tt: Seq<char>|
                            final(self).opened().contains(tt) == (old(self).opened().contains(tt)
                                || tt == t)
                    }
                },
            },
    {
        let topic = match &self.selected_topic {
            Some(t) => t.clone(),
            None => {
                return ;
            },
        };
        if self.opened_contains(&topic) {
            self.opened_remove(&topic);
        } else {
            self.opened_insert(&topic);
        }
    }

    /// Map a terminal cell to an absolute row index into the visible
    /// list: a click inside the last-drawn pane (its one-cell border
    /// excluded) gives the row offset plus the scroll offset; a click
    /// anywhere else gives nothing.
    pub fn index_of_click(&self, column: u16, row: u16) -> (r: Option<usize>)
        ensures
            match r {
                Some(i) => click_index(*self, column, row) == Some(i as int),
                None => click_index(*self, column, row) is None,
            },
    {
        let x = self.area_x;
        let y = self.area_y;
        let w = self.area_width;
        let h = self.area_height;
        if h > 2 && column >= x && (column as u32) < (x as u32) + (w as u32) && row > y && (
        row as u32) < (y as u32) + (h as u32) - 1 {
            let row_offset = (row - y - 1) as usize;
            if self.offset <= usize::MAX - row_offset {
                Some(self.offset + row_offset)
            } else {
                Some(usize::MAX)
            }
        } else {
            None
        }
    }
}

} // verus!
