//! Rendering grouped meanings as plain-text display lines. Every displayed
//! string passes through the tag stripper first: no raw markup reaches the
//! display layer.

use vstd::prelude::*;
use vstd::string::StringExecFns;

use crate::meanings::{pairs_view, GroupView, GroupedMeanings, PairView};
use crate::strip::{strip_html, strip_spec};

verus! {

/// The opening line that names the looked-up term.
pub open spec fn header_line(term: Seq<char>) -> Seq<char> {
    "The word \""@ + strip_spec(term) + "\" has the following meanings:"@
}

/// A line rendered blank.
pub open spec fn blank_line() -> Seq<char> {
    " "@
}

/// The line showing a pair's source text.
pub open spec fn original_line(source: Seq<char>) -> Seq<char> {
    "    -> Original: "@ + strip_spec(source)
}

/// The line showing a pair's target text.
pub open spec fn translation_line(target: Seq<char>) -> Seq<char> {
    "    Translation: "@ + strip_spec(target)
}

/// The three lines of one translation pair.
pub open spec fn pair_lines(p: PairView) -> Seq<Seq<char>> {
    seq![original_line(p.source), translation_line(p.target), blank_line()]
}

/// The lines of a run of translation pairs, in order.
pub open spec fn pairs_lines(ps: Seq<PairView>) -> Seq<Seq<char>>
    decreases ps.len(),
{
    if ps.len() == 0 {
        Seq::empty()
    } else {
        pairs_lines(ps.drop_last()) + pair_lines(ps.last())
    }
}

/// The lines of one meaning group: its stripped header, then its pairs.
pub open spec fn group_lines(g: GroupView) -> Seq<Seq<char>> {
    seq![strip_spec(g.header)] + pairs_lines(g.translations)
}

/// The lines of a run of meaning groups, in order.
pub open spec fn groups_lines(gs: Seq<GroupView>) -> Seq<Seq<char>>
    decreases gs.len(),
{
    if gs.len() == 0 {
        Seq::empty()
    } else {
        groups_lines(gs.drop_last()) + group_lines(gs.last())
    }
}

/// All display lines of one lookup: the header line, one blank line, then
/// every group's lines in the mapping's order.
pub open spec fn build_spec(term: Seq<char>, gs: Seq<GroupView>) -> Seq<Seq<char>> {
    seq![header_line(term), blank_line()] + groups_lines(gs)
}

/// The number of lines one group contributes: its header line and three
/// lines per translation pair.
pub open spec fn group_line_count(g: GroupView) -> int {
    1 + 3 * (g.translations.len() as int)
}

/// The number of lines a run of groups contributes.
pub open spec fn groups_line_count(gs: Seq<GroupView>) -> int
    decreases gs.len(),
{
    if gs.len() == 0 {
        0
    } else {
        groups_line_count(gs.drop_last()) + group_line_count(gs.last())
    }
}

proof fn lemma_groups_line_count_nonneg(gs: Seq<GroupView>)
    ensures
        groups_line_count(gs) >= 0,
    decreases gs.len(),
{
    if gs.len() > 0 {
        lemma_groups_line_count_nonneg(gs.drop_last());
    }
}

/// A strict prefix's lines, plus the next group's own, fit before the end.
proof fn lemma_count_prefix_bound(gs: Seq<GroupView>, i: int)
    requires
        0 <= i < gs.len(),
    ensures
        groups_line_count(gs.take(i)) >= 0,
        groups_line_count(gs.take(i)) + group_line_count(gs[i]) <= groups_line_count(gs),
    decreases gs.len(),
{
    lemma_groups_line_count_nonneg(gs.take(i));
    if i == gs.len() - 1 {
        assert(gs.take(i) =~= gs.drop_last());
        assert(gs.last() == gs[i]);
    } else {
        lemma_count_prefix_bound(gs.drop_last(), i);
        assert(gs.drop_last().take(i) =~= gs.take(i));
        assert(gs.drop_last()[i] == gs[i]);
    }
}

/// Where each pair's lines stand inside a run of pairs.
proof fn lemma_pairs_lines_layout(ps: Seq<PairView>)
    ensures
        pairs_lines(ps).len() == 3 * ps.len(),
        forall|j: int|
            0 <= j < ps.len() ==> {
                &&& pairs_lines(ps)[3 * j] == original_line((#[trigger] ps[j]).source)
                &&& pairs_lines(ps)[3 * j + 1] == translation_line(ps[j].target)
                &&& pairs_lines(ps)[3 * j + 2] == blank_line()
            },
    decreases ps.len(),
{
    if ps.len() > 0 {
        lemma_pairs_lines_layout(ps.drop_last());
        let pre = pairs_lines(ps.drop_last());
        let whole = pairs_lines(ps);
        assert forall|j: int| 0 <= j < ps.len() implies {
            &&& whole[3 * j] == original_line((#[trigger] ps[j]).source)
            &&& whole[3 * j + 1] == translation_line(ps[j].target)
            &&& whole[3 * j + 2] == blank_line()
        } by {
            if j < ps.len() - 1 {
                assert(ps.drop_last()[j] == ps[j]);
                assert(whole[3 * j] == pre[3 * j]);
                assert(whole[3 * j + 1] == pre[3 * j + 1]);
                assert(whole[3 * j + 2] == pre[3 * j + 2]);
            } else {
                let tail = pair_lines(ps.last());
                assert(ps.last() == ps[j]);
                assert(whole[3 * j] == tail[0]);
                assert(whole[3 * j + 1] == tail[1]);
                assert(whole[3 * j + 2] == tail[2]);
            }
        }
    }
}

/// Where each group's lines stand inside a run of groups.
proof fn lemma_groups_lines_layout(gs: Seq<GroupView>)
    ensures
        groups_lines(gs).len() == groups_line_count(gs),
        forall|i: int|
            0 <= i < gs.len() ==> groups_lines(gs)[groups_line_count(gs.take(i))] == strip_spec(
                (#[trigger] gs[i]).header,
            ),
        forall|i: int, j: int|
            0 <= i < gs.len() && 0 <= j < gs[i].translations.len() ==> {
                let off = groups_line_count(gs.take(i)) + 1 + 3 * j;
                &&& groups_lines(gs)[off] == original_line(
                    (#[trigger] gs[i].translations[j]).source,
                )
                &&& groups_lines(gs)[off + 1] == translation_line(gs[i].translations[j].target)
                &&& groups_lines(gs)[off + 2] == blank_line()
            },
    decreases gs.len(),
{
    if gs.len() > 0 {
        let pre = gs.drop_last();
        lemma_groups_lines_layout(pre);
        let pre_lines = groups_lines(pre);
        let last_lines = group_lines(gs.last());
        let whole = groups_lines(gs);
        lemma_pairs_lines_layout(gs.last().translations);
        assert forall|i: int| 0 <= i < gs.len() implies whole[groups_line_count(gs.take(i))]
            == strip_spec((#[trigger] gs[i]).header) by {
            if i < gs.len() - 1 {
                assert(gs.take(i) =~= pre.take(i));
                assert(pre[i] == gs[i]);
                lemma_count_prefix_bound(pre, i);
                assert(whole[groups_line_count(pre.take(i))] == pre_lines[groups_line_count(
                    pre.take(i),
                )]);
            } else {
                assert(gs.take(i) =~= pre);
                assert(gs.last() == gs[i]);
                assert(whole[groups_line_count(pre)] == last_lines[0]);
            }
        }
        assert forall|i: int, j: int|
            0 <= i < gs.len() && 0 <= j < gs[i].translations.len() implies {
            let off = groups_line_count(gs.take(i)) + 1 + 3 * j;
            &&& whole[off] == original_line((#[trigger] gs[i].translations[j]).source)
            &&& whole[off + 1] == translation_line(gs[i].translations[j].target)
            &&& whole[off + 2] == blank_line()
        } by {
            if i < gs.len() - 1 {
                assert(gs.take(i) =~= pre.take(i));
                assert(pre[i] == gs[i]);
                lemma_count_prefix_bound(pre, i);
                let off = groups_line_count(pre.take(i)) + 1 + 3 * j;
                assert(whole[off] == pre_lines[off]);
                assert(whole[off + 1] == pre_lines[off + 1]);
                assert(whole[off + 2] == pre_lines[off + 2]);
            } else {
                assert(gs.take(i) =~= pre);
                assert(gs.last() == gs[i]);
                let ts = gs[i].translations;
                let off = groups_line_count(pre) + 1 + 3 * j;
                assert(whole[off] == last_lines[1 + 3 * j]);
                assert(whole[off + 1] == last_lines[1 + 3 * j + 1]);
                assert(whole[off + 2] == last_lines[1 + 3 * j + 2]);
                assert(last_lines[1 + 3 * j] == pairs_lines(ts)[3 * j]);
                assert(last_lines[1 + 3 * j + 1] == pairs_lines(ts)[3 * j + 1]);
                assert(last_lines[1 + 3 * j + 2] == pairs_lines(ts)[3 * j + 2]);
            }
        }
    }
}

/// Law: the rendered lines always open with the header line naming the term
/// and one blank line, and hold, for each meaning group in order, its
/// stripped header followed by exactly one Original/Translation line pair
/// (and a trailing blank) per translation pair of the group — no more lines
/// exist than those.
pub proof fn lemma_build_layout(term: Seq<char>, gs: Seq<GroupView>)
    ensures
        build_spec(term, gs).len() == 2 + groups_line_count(gs),
        build_spec(term, gs)[0] == header_line(term),
        build_spec(term, gs)[1] == blank_line(),
        forall|i: int|
            0 <= i < gs.len() ==> build_spec(term, gs)[2 + groups_line_count(gs.take(i))]
                == strip_spec((#[trigger] gs[i]).header),
        forall|i: int, j: int|
            0 <= i < gs.len() && 0 <= j < gs[i].translations.len() ==> {
                let off = 2 + groups_line_count(gs.take(i)) + 1 + 3 * j;
                &&& build_spec(term, gs)[off] == original_line(
                    (#[trigger] gs[i].translations[j]).source,
                )
                &&& build_spec(term, gs)[off + 1] == translation_line(gs[i].translations[j].target)
                &&& build_spec(term, gs)[off + 2] == blank_line()
            },
{
    lemma_groups_lines_layout(gs);
    let body = groups_lines(gs);
    let whole = build_spec(term, gs);
    assert forall|i: int| 0 <= i < gs.len() implies whole[2 + groups_line_count(gs.take(i))]
        == strip_spec((#[trigger] gs[i]).header) by {
        lemma_count_prefix_bound(gs, i);
        assert(whole[2 + groups_line_count(gs.take(i))] == body[groups_line_count(gs.take(i))]);
    }
    assert forall|i: int, j: int|
        0 <= i < gs.len() && 0 <= j < gs[i].translations.len() implies {
        let off = 2 + groups_line_count(gs.take(i)) + 1 + 3 * j;
        &&& whole[off] == original_line((#[trigger] gs[i].translations[j]).source)
        &&& whole[off + 1] == translation_line(gs[i].translations[j].target)
        &&& whole[off + 2] == blank_line()
    } by {
        lemma_count_prefix_bound(gs, i);
        let off = groups_line_count(gs.take(i)) + 1 + 3 * j;
        assert(whole[2 + off] == body[off]);
        assert(whole[2 + off + 1] == body[off + 1]);
        assert(whole[2 + off + 2] == body[off + 2]);
    }
}

/// The images of a sequence of display lines.
pub open spec fn lines_view(ls: Seq<String>) -> Seq<Seq<char>> {
    ls.map_values(|l: String| l@)
}

/// Renders the grouped meanings of `term` as display lines.
///
/// An empty mapping degrades gracefully: the header line and the blank line
/// are still produced.
#[verifier::loop_isolation(false)]
pub fn build(term: &str, meanings: &GroupedMeanings) -> (lines: Vec<String>)
    ensures
        lines_view(lines@) == build_spec(term@, meanings@),
{
    let mut lines: Vec<String> = Vec::new();
    let mut opening = "The word \"".to_owned();
    opening.append(strip_html(term).as_str());
    opening.append("\" has the following meanings:");
    let ghost opening_view = opening@;
    lines.push(opening);
    lines.push(" ".to_owned());
    proof {
        assert(opening_view == header_line(term@));
        assert(meanings@.take(0) =~= Seq::<GroupView>::empty());
        assert(lines_view(lines@) =~= build_spec(term@, meanings@.take(0)));
    }
    let mut i: usize = 0;
    while i < meanings.groups.len()
        invariant
            i <= meanings.groups@.len(),
            lines_view(lines@) == build_spec(term@, meanings@.take(i as int)),
        decreases meanings.groups@.len() - i,
    {
        let g = &meanings.groups[i];
        let ghost lines_at_group = lines_view(lines@);
        let stripped_header = strip_html(g.header.as_str());
        let ghost header_view = stripped_header@;
        lines.push(stripped_header);
        proof {
            assert(lines_view(lines@) =~= lines_at_group.push(header_view));
            assert(g@.translations.take(0) =~= Seq::<PairView>::empty());
            assert(pairs_lines(g@.translations.take(0)) =~= Seq::<Seq<char>>::empty());
            assert(lines_view(lines@) =~= lines_at_group + seq![strip_spec(g@.header)]
                + pairs_lines(g@.translations.take(0)));
        }
        let mut j: usize = 0;
        while j < g.translations.len()
            invariant
                j <= g.translations@.len(),
                lines_view(lines@) == lines_at_group + seq![strip_spec(g@.header)] + pairs_lines(
                    g@.translations.take(j as int),
                ),
            decreases g.translations@.len() - j,
        {
            let p = &g.translations[j];
            let ghost before_pair = lines_view(lines@);
            let mut original = "    -> Original: ".to_owned();
            original.append(strip_html(p.source.as_str()).as_str());
            let ghost original_view = original@;
            lines.push(original);
            let mut translation = "    Translation: ".to_owned();
            translation.append(strip_html(p.target.as_str()).as_str());
            let ghost translation_view = translation@;
            lines.push(translation);
            lines.push(" ".to_owned());
            proof {
                let pv = g@.translations[j as int];
                assert(pv == p@);
                assert(original_view == original_line(pv.source));
                assert(translation_view == translation_line(pv.target));
                assert(lines_view(lines@) =~= before_pair + pair_lines(pv));
                assert(g@.translations.take(j as int + 1).drop_last() =~= g@.translations.take(
                    j as int,
                ));
                assert(g@.translations.take(j as int + 1).last() == pv);
                assert(lines_view(lines@) =~= lines_at_group + seq![strip_spec(g@.header)]
                    + pairs_lines(g@.translations.take(j as int + 1)));
            }
            j = j + 1;
        }
        proof {
            assert(g@.translations.take(g@.translations.len() as int) =~= g@.translations);
            assert(lines_view(lines@) =~= lines_at_group + group_lines(g@));
            assert(meanings@.take(i as int + 1).drop_last() =~= meanings@.take(i as int));
            assert(meanings@.take(i as int + 1).last() == meanings@[i as int]);
            assert(meanings@[i as int] == g@);
            assert(lines_view(lines@) =~= build_spec(term@, meanings@.take(i as int + 1)));
        }
        i = i + 1;
    }
    proof {
        assert(meanings@.take(meanings@.len() as int) =~= meanings@);
    }
    lines
}

} // verus!
