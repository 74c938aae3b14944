//! The extractor's output: meaning groups in first-seen order, each header
//! unique, each group holding its translation pairs in document order.

use vstd::prelude::*;

verus! {

/// One example phrase in the input language and its rendered translation.
#[derive(Debug, PartialEq, Eq)]
pub struct TranslationPair {
    pub source: String,
    pub target: String,
}

/// The mathematical image of a [`TranslationPair`].
pub struct PairView {
    pub source: Seq<char>,
    pub target: Seq<char>,
}

impl View for TranslationPair {
    type V = PairView;

    open spec fn view(&self) -> PairView {
        PairView { source: self.source@, target: self.target@ }
    }
}

/// One meaning of the headword: its natural-language label and its
/// translation pairs, in order.
#[derive(Debug, PartialEq, Eq)]
pub struct MeaningGroup {
    pub header: String,
    pub translations: Vec<TranslationPair>,
}

/// The mathematical image of a [`MeaningGroup`].
pub struct GroupView {
    pub header: Seq<char>,
    pub translations: Seq<PairView>,
}

/// The images of a sequence of translation pairs.
pub open spec fn pairs_view(ps: Seq<TranslationPair>) -> Seq<PairView> {
    ps.map_values(|p: TranslationPair| p@)
}

impl View for MeaningGroup {
    type V = GroupView;

    open spec fn view(&self) -> GroupView {
        GroupView { header: self.header@, translations: pairs_view(self.translations@) }
    }
}

/// All meaning groups of one lookup, in first-seen order of their headers.
#[derive(Debug, PartialEq, Eq)]
pub struct GroupedMeanings {
    pub groups: Vec<MeaningGroup>,
}

impl View for GroupedMeanings {
    type V = Seq<GroupView>;

    open spec fn view(&self) -> Seq<GroupView> {
        self.groups@.map_values(|g: MeaningGroup| g@)
    }
}

/// Holds when no two groups share a header.
pub open spec fn unique_headers(gs: Seq<GroupView>) -> bool {
    forall|i: int, j: int| 0 <= i < j < gs.len() ==> gs[i].header != gs[j].header
}

/// The position of the group whose header is `h`, if any.
pub open spec fn header_slot(gs: Seq<GroupView>, h: Seq<char>) -> Option<int>
    decreases gs.len(),
{
    if gs.len() == 0 {
        None
    } else if gs[0].header == h {
        Some(0int)
    } else {
        match header_slot(gs.drop_first(), h) {
            None => None,
            Some(i) => Some(i + 1),
        }
    }
}

/// What inserting one group does: a group whose header is already present
/// replaces that slot in place (last write wins); a new header is appended.
pub open spec fn insert_group(gs: Seq<GroupView>, g: GroupView) -> Seq<GroupView> {
    match header_slot(gs, g.header) {
        None => gs.push(g),
        Some(i) => gs.update(i, g),
    }
}

/// The translations stored for header `h`, if any.
pub open spec fn lookup_header(gs: Seq<GroupView>, h: Seq<char>) -> Option<Seq<PairView>> {
    match header_slot(gs, h) {
        None => None,
        Some(i) => Some(gs[i].translations),
    }
}

/// `header_slot` finds the first group with the given header, and finds none
/// exactly when no group has it.
pub proof fn lemma_header_slot(gs: Seq<GroupView>, h: Seq<char>)
    ensures
        match header_slot(gs, h) {
            None => forall|k: int| 0 <= k < gs.len() ==> gs[k].header != h,
            Some(i) => 0 <= i < gs.len() && gs[i].header == h && (forall|k: int|
                0 <= k < i ==> gs[k].header != h),
        },
    decreases gs.len(),
{
    if gs.len() > 0 && gs[0].header != h {
        let tail = gs.drop_first();
        lemma_header_slot(tail, h);
        match header_slot(tail, h) {
            None => {
                assert forall|k: int| 0 <= k < gs.len() implies gs[k].header != h by {
                    if k > 0 {
                        assert(tail[k - 1] == gs[k]);
                    }
                }
            },
            Some(i) => {
                assert(tail[i] == gs[i + 1]);
                assert forall|k: int| 0 <= k < i + 1 implies gs[k].header != h by {
                    if k > 0 {
                        assert(tail[k - 1] == gs[k]);
                    }
                }
            },
        }
    }
}

/// Law: inserting keeps headers unique, stores exactly the inserted group's
/// translations under its header, and leaves every other header's entry as it
/// was (last write wins, no merge).
pub proof fn lemma_insert_group(gs: Seq<GroupView>, g: GroupView)
    requires
        unique_headers(gs),
    ensures
        unique_headers(insert_group(gs, g)),
        lookup_header(insert_group(gs, g), g.header) == Some(g.translations),
        forall|h: Seq<char>|
            h != g.header ==> #[trigger] lookup_header(insert_group(gs, g), h) == lookup_header(
                gs,
                h,
            ),
    decreases gs.len(),
{
    lemma_header_slot(gs, g.header);
    let out = insert_group(gs, g);
    match header_slot(gs, g.header) {
        None => {
            assert(out == gs.push(g));
            assert forall|i: int, j: int| 0 <= i < j < out.len() implies out[i].header
                != out[j].header by {
                if j == out.len() - 1 {
                    assert(out[i] == gs[i]);
                }
            }
            lemma_slot_after(gs, g);
        },
        Some(i) => {
            assert(out == gs.update(i, g));
            assert(out[i].header == gs[i].header);
            assert forall|a: int, b: int| 0 <= a < b < out.len() implies out[a].header
                != out[b].header by {
                assert(out[a].header == gs[a].header && out[b].header == gs[b].header);
            }
            lemma_slot_after(gs, g);
        },
    }
}

/// After an insert, the slot of the inserted header is fixed and every other
/// header keeps both its slot and its stored translations.
proof fn lemma_slot_after(gs: Seq<GroupView>, g: GroupView)
    ensures
        match header_slot(gs, g.header) {
            None => header_slot(gs.push(g), g.header) == Some(gs.len() as int),
            Some(i) => header_slot(gs.update(i, g), g.header) == Some(i),
        },
        forall|h: Seq<char>|
            h != g.header ==> #[trigger] header_slot(insert_group(gs, g), h) == header_slot(gs, h)
                && lookup_header(insert_group(gs, g), h) == lookup_header(gs, h),
    decreases gs.len(),
{
    lemma_header_slot(gs, g.header);
    if gs.len() == 0 {
        let out = gs.push(g);
        assert(out[0] == g);
        assert forall|h: Seq<char>| h != g.header implies #[trigger] header_slot(
            insert_group(gs, g),
            h,
        ) == header_slot(gs, h) && lookup_header(insert_group(gs, g), h) == lookup_header(
            gs,
            h,
        ) by {
            assert(out.drop_first() =~= gs);
            assert(header_slot(gs, h) is None);
            assert(header_slot(out, h) is None);
        }
    } else if gs[0].header == g.header {
        let out = gs.update(0, g);
        assert(out[0] == g);
        assert forall|h: Seq<char>| h != g.header implies #[trigger] header_slot(
            insert_group(gs, g),
            h,
        ) == header_slot(gs, h) && lookup_header(insert_group(gs, g), h) == lookup_header(
            gs,
            h,
        ) by {
            assert(out.drop_first() =~= gs.drop_first());
            lemma_lookup_tail(gs, out, h);
        }
    } else {
        lemma_slot_after(gs.drop_first(), g);
        match header_slot(gs, g.header) {
            None => {
                let out = gs.push(g);
                assert(out[0] == gs[0]);
                assert(out.drop_first() =~= gs.drop_first().push(g));
                assert(header_slot(gs.drop_first(), g.header) is None);
                assert(header_slot(out.drop_first(), g.header) == Some(
                    gs.drop_first().len() as int,
                ));
                assert forall|h: Seq<char>| h != g.header implies #[trigger] header_slot(
                    insert_group(gs, g),
                    h,
                ) == header_slot(gs, h) && lookup_header(insert_group(gs, g), h) == lookup_header(
                    gs,
                    h,
                ) by {
                    assert(insert_group(gs.drop_first(), g) == gs.drop_first().push(g));
                    lemma_lookup_tail(gs, out, h);
                }
            },
            Some(i) => {
                let out = gs.update(i, g);
                assert(i >= 1);
                assert(out[0] == gs[0]);
                assert(out.drop_first() =~= gs.drop_first().update(i - 1, g));
                assert(header_slot(gs.drop_first(), g.header) == Some(i - 1));
                assert forall|h: Seq<char>| h != g.header implies #[trigger] header_slot(
                    insert_group(gs, g),
                    h,
                ) == header_slot(gs, h) && lookup_header(insert_group(gs, g), h) == lookup_header(
                    gs,
                    h,
                ) by {
                    assert(insert_group(gs.drop_first(), g) == gs.drop_first().update(i - 1, g));
                    lemma_lookup_tail(gs, out, h);
                }
            },
        }
    }
}

/// Helper: two sequences with the same head relate their lookups through
/// their tails.
proof fn lemma_lookup_tail(gs: Seq<GroupView>, out: Seq<GroupView>, h: Seq<char>)
    requires
        gs.len() > 0,
        out.len() > 0,
        out[0].header == gs[0].header,
        gs[0].header == h ==> out[0].translations == gs[0].translations,
        header_slot(out.drop_first(), h) == header_slot(gs.drop_first(), h),
        lookup_header(out.drop_first(), h) == lookup_header(gs.drop_first(), h),
    ensures
        header_slot(out, h) == header_slot(gs, h),
        lookup_header(out, h) == lookup_header(gs, h),
{
    lemma_header_slot(gs, h);
    lemma_header_slot(out, h);
    if gs[0].header != h {
        match header_slot(gs.drop_first(), h) {
            None => {},
            Some(k) => {
                assert(gs.drop_first()[k] == gs[k + 1]);
                assert(out.drop_first()[k] == out[k + 1]);
            },
        }
    }
}

impl GroupedMeanings {
    /// Headers are pairwise distinct.
    pub open spec fn wf(&self) -> bool {
        unique_headers(self@)
    }

    /// An empty mapping.
    pub fn new() -> (res: GroupedMeanings)
        ensures
            res@ == Seq::<GroupView>::empty(),
            res.wf(),
    {
        let res = GroupedMeanings { groups: Vec::new() };
        proof {
            assert(res@ =~= Seq::<GroupView>::empty());
        }
        res
    }

    /// Inserts one meaning group: a header already present has its
    /// translations replaced in place (last write wins); a new header is
    /// appended.
    pub fn insert(&mut self, g: MeaningGroup)
        requires
            old(self).wf(),
        ensures
            final(self)@ == insert_group(old(self)@, g@),
            final(self).wf(),
    {
        let mut i: usize = 0;
        while i < self.groups.len()
            invariant
                i <= self.groups@.len(),
                *self == *old(self),
                old(self).wf(),
                forall|k: int| 0 <= k < i ==> self@[k].header != g@.header,
            decreases self.groups@.len() - i,
        {
            if self.groups[i].header == g.header {
                proof {
                    lemma_insert_group(old(self)@, g@);
                    lemma_header_slot(self@, g@.header);
                    assert(self@[i as int].header == g@.header);
                    match header_slot(self@, g@.header) {
                        None => {
                            assert(self@[i as int].header != g@.header);
                            assert(false);
                        },
                        Some(s) => {
                            assert(s == i as int) by {
                                if s < i as int {
                                    assert(self@[s].header != g@.header);
                                } else if s > i as int {
                                    assert(self@[i as int].header != g@.header);
                                }
                            }
                        },
                    }
                }
                let _ = self.groups.remove(i);
                self.groups.insert(i, g);
                proof {
                    assert(self@ =~= old(self)@.update(i as int, g@));
                    assert(header_slot(old(self)@, g@.header) == Some(i as int));
                    assert(self@ == insert_group(old(self)@, g@));
                    assert(unique_headers(self@));
                }
                return ;
            }
            i = i + 1;
        }
        proof {
            lemma_insert_group(old(self)@, g@);
            lemma_header_slot(self@, g@.header);
            match header_slot(self@, g@.header) {
                None => {},
                Some(s) => {
                    assert(self@[s].header != g@.header);
                    assert(false);
                },
            }
        }
        self.groups.push(g);
        proof {
            assert(self@ =~= old(self)@.push(g@));
        }
    }
}

} // verus!
