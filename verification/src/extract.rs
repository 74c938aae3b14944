//! Navigation of the parsed response tree into grouped meanings.
//!
//! The expected shape: the root is an array whose first element is an object
//! with an array field `hits`; the first hit is an object with an array field
//! `roms`; the first rom is an object with an array field `arabs`. Each arab
//! is an object with a string field `header` and an array field
//! `translations`, whose elements are objects with string fields `source` and
//! `target`. Hits, roms beyond the first are out of scope and ignored.

use vstd::prelude::*;

use crate::meanings::{
    pairs_view, GroupView, GroupedMeanings, MeaningGroup, PairView, TranslationPair, insert_group,
};
use crate::tree::{obj_get, obj_lookup, JsonTree};

verus! {

/// Why a response tree could not be reshaped into grouped meanings.
#[derive(Debug, Clone, PartialEq, Eq)]
pub enum ExtractError {
    /// An expected field is absent at the named location.
    MissingField(String),
    /// The named location holds a value of the wrong JSON kind; the second
    /// text names the kind that was expected.
    TypeMismatch(String, String),
    /// The `hits` array is empty.
    EmptyHits,
    /// The `roms` array is empty.
    EmptyRoms,
}

/// The mathematical image of an [`ExtractError`].
pub enum ErrorView {
    MissingField(Seq<char>),
    TypeMismatch(Seq<char>, Seq<char>),
    EmptyHits,
    EmptyRoms,
}

impl View for ExtractError {
    type V = ErrorView;

    open spec fn view(&self) -> ErrorView {
        match self {
            ExtractError::MissingField(p) => ErrorView::MissingField(p@),
            ExtractError::TypeMismatch(p, k) => ErrorView::TypeMismatch(p@, k@),
            ExtractError::EmptyHits => ErrorView::EmptyHits,
            ExtractError::EmptyRoms => ErrorView::EmptyRoms,
        }
    }
}

/// What one element of a `translations` array yields: its source and target
/// texts, or the first error met reading them.
pub open spec fn pair_of(t: JsonTree) -> Result<PairView, ErrorView> {
    match t {
        JsonTree::Object(fields) => match obj_lookup(fields@, "source"@) {
            None => Err(ErrorView::MissingField("translations[].source"@)),
            Some(sv) => match sv {
                JsonTree::Str(s) => match obj_lookup(fields@, "target"@) {
                    None => Err(ErrorView::MissingField("translations[].target"@)),
                    Some(tv) => match tv {
                        JsonTree::Str(tg) => Ok(PairView { source: s@, target: tg@ }),
                        _ => Err(ErrorView::TypeMismatch("translations[].target"@, "string"@)),
                    },
                },
                _ => Err(ErrorView::TypeMismatch("translations[].source"@, "string"@)),
            },
        },
        _ => Err(ErrorView::TypeMismatch("translations[]"@, "object"@)),
    }
}

/// What a whole `translations` array yields: its pairs in order, or the
/// leftmost error.
pub open spec fn pairs_of(items: Seq<JsonTree>) -> Result<Seq<PairView>, ErrorView>
    decreases items.len(),
{
    if items.len() == 0 {
        Ok(Seq::empty())
    } else {
        match pairs_of(items.drop_last()) {
            Err(e) => Err(e),
            Ok(ps) => match pair_of(items.last()) {
                Err(e) => Err(e),
                Ok(p) => Ok(ps.push(p)),
            },
        }
    }
}

/// What one element of the `arabs` array yields: a meaning group, or the
/// first error met reading it.
pub open spec fn group_of(t: JsonTree) -> Result<GroupView, ErrorView> {
    match t {
        JsonTree::Object(fields) => match obj_lookup(fields@, "header"@) {
            None => Err(ErrorView::MissingField("arabs[].header"@)),
            Some(hv) => match hv {
                JsonTree::Str(h) => match obj_lookup(fields@, "translations"@) {
                    None => Err(ErrorView::MissingField("arabs[].translations"@)),
                    Some(tv) => match tv {
                        JsonTree::Array(items) => match pairs_of(items@) {
                            Err(e) => Err(e),
                            Ok(ps) => Ok(GroupView { header: h@, translations: ps }),
                        },
                        _ => Err(ErrorView::TypeMismatch("arabs[].translations"@, "array"@)),
                    },
                },
                _ => Err(ErrorView::TypeMismatch("arabs[].header"@, "string"@)),
            },
        },
        _ => Err(ErrorView::TypeMismatch("arabs[]"@, "object"@)),
    }
}

/// What a whole `arabs` array yields: its groups inserted in order, a later
/// duplicate header replacing the earlier entry, or the leftmost error.
pub open spec fn groups_of(arabs: Seq<JsonTree>) -> Result<Seq<GroupView>, ErrorView>
    decreases arabs.len(),
{
    if arabs.len() == 0 {
        Ok(Seq::empty())
    } else {
        match groups_of(arabs.drop_last()) {
            Err(e) => Err(e),
            Ok(gs) => match group_of(arabs.last()) {
                Err(e) => Err(e),
                Ok(g) => Ok(insert_group(gs, g)),
            },
        }
    }
}

/// What the whole response tree yields.
pub open spec fn extract_spec(root: JsonTree) -> Result<Seq<GroupView>, ErrorView> {
    match root {
        JsonTree::Array(elems) => if elems@.len() == 0 {
            Err(ErrorView::MissingField("root[0]"@))
        } else {
            match elems@[0] {
                JsonTree::Object(fields) => match obj_lookup(fields@, "hits"@) {
                    None => Err(ErrorView::MissingField("root[0].hits"@)),
                    Some(hv) => match hv {
                        JsonTree::Array(hits) => if hits@.len() == 0 {
                            Err(ErrorView::EmptyHits)
                        } else {
                            extract_from_hit(hits@[0])
                        },
                        _ => Err(ErrorView::TypeMismatch("root[0].hits"@, "array"@)),
                    },
                },
                _ => Err(ErrorView::TypeMismatch("root[0]"@, "object"@)),
            }
        },
        _ => Err(ErrorView::TypeMismatch("root"@, "array"@)),
    }
}

/// What the first hit yields.
pub open spec fn extract_from_hit(hit: JsonTree) -> Result<Seq<GroupView>, ErrorView> {
    match hit {
        JsonTree::Object(fields) => match obj_lookup(fields@, "roms"@) {
            None => Err(ErrorView::MissingField("hits[0].roms"@)),
            Some(rv) => match rv {
                JsonTree::Array(roms) => if roms@.len() == 0 {
                    Err(ErrorView::EmptyRoms)
                } else {
                    extract_from_rom(roms@[0])
                },
                _ => Err(ErrorView::TypeMismatch("hits[0].roms"@, "array"@)),
            },
        },
        _ => Err(ErrorView::TypeMismatch("hits[0]"@, "object"@)),
    }
}

/// What the first rom yields.
pub open spec fn extract_from_rom(rom: JsonTree) -> Result<Seq<GroupView>, ErrorView> {
    match rom {
        JsonTree::Object(fields) => match obj_lookup(fields@, "arabs"@) {
            None => Err(ErrorView::MissingField("roms[0].arabs"@)),
            Some(av) => match av {
                JsonTree::Array(arabs) => groups_of(arabs@),
                _ => Err(ErrorView::TypeMismatch("roms[0].arabs"@, "array"@)),
            },
        },
        _ => Err(ErrorView::TypeMismatch("roms[0]"@, "object"@)),
    }
}

/// An erring prefix settles the whole array: the leftmost error wins.
proof fn lemma_pairs_of_prefix(items: Seq<JsonTree>, i: int)
    requires
        0 <= i <= items.len(),
        pairs_of(items.take(i)) is Err,
    ensures
        pairs_of(items) == pairs_of(items.take(i)),
    decreases items.len() - i,
{
    if i == items.len() {
        assert(items.take(i) =~= items);
    } else {
        assert(items.take(i + 1).drop_last() =~= items.take(i));
        lemma_pairs_of_prefix(items, i + 1);
    }
}

/// An erring prefix settles the whole array: the leftmost error wins.
proof fn lemma_groups_of_prefix(arabs: Seq<JsonTree>, i: int)
    requires
        0 <= i <= arabs.len(),
        groups_of(arabs.take(i)) is Err,
    ensures
        groups_of(arabs) == groups_of(arabs.take(i)),
    decreases arabs.len() - i,
{
    if i == arabs.len() {
        assert(arabs.take(i) =~= arabs);
    } else {
        assert(arabs.take(i + 1).drop_last() =~= arabs.take(i));
        lemma_groups_of_prefix(arabs, i + 1);
    }
}

/// Reads one element of a `translations` array.
fn pair_from(t: &JsonTree) -> (res: Result<TranslationPair, ExtractError>)
    ensures
        match res {
            Ok(p) => pair_of(*t) == Ok::<PairView, ErrorView>(p@),
            Err(e) => pair_of(*t) == Err::<PairView, ErrorView>(e@),
        },
{
    let fields = match t {
        JsonTree::Object(fields) => fields,
        _ => {
            return Err(
                ExtractError::TypeMismatch("translations[]".to_owned(), "object".to_owned()),
            );
        },
    };
    let s = match obj_get(fields, "source") {
        None => {
            return Err(ExtractError::MissingField("translations[].source".to_owned()));
        },
        Some(JsonTree::Str(s)) => s,
        Some(_) => {
            return Err(
                ExtractError::TypeMismatch("translations[].source".to_owned(), "string".to_owned()),
            );
        },
    };
    let tg = match obj_get(fields, "target") {
        None => {
            return Err(ExtractError::MissingField("translations[].target".to_owned()));
        },
        Some(JsonTree::Str(tg)) => tg,
        Some(_) => {
            return Err(
                ExtractError::TypeMismatch("translations[].target".to_owned(), "string".to_owned()),
            );
        },
    };
    Ok(TranslationPair { source: s.clone(), target: tg.clone() })
}

/// Reads one element of the `arabs` array.
#[verifier::loop_isolation(false)]
fn group_from(t: &JsonTree) -> (res: Result<MeaningGroup, ExtractError>)
    ensures
        match res {
            Ok(g) => group_of(*t) == Ok::<GroupView, ErrorView>(g@),
            Err(e) => group_of(*t) == Err::<GroupView, ErrorView>(e@),
        },
{
    let fields = match t {
        JsonTree::Object(fields) => fields,
        _ => {
            return Err(ExtractError::TypeMismatch("arabs[]".to_owned(), "object".to_owned()));
        },
    };
    let h = match obj_get(fields, "header") {
        None => {
            return Err(ExtractError::MissingField("arabs[].header".to_owned()));
        },
        Some(JsonTree::Str(h)) => h,
        Some(_) => {
            return Err(
                ExtractError::TypeMismatch("arabs[].header".to_owned(), "string".to_owned()),
            );
        },
    };
    let items = match obj_get(fields, "translations") {
        None => {
            return Err(ExtractError::MissingField("arabs[].translations".to_owned()));
        },
        Some(JsonTree::Array(items)) => items,
        Some(_) => {
            return Err(
                ExtractError::TypeMismatch("arabs[].translations".to_owned(), "array".to_owned()),
            );
        },
    };
    let mut pairs: Vec<TranslationPair> = Vec::new();
    let mut i: usize = 0;
    proof {
        assert(items@.take(0) =~= Seq::<JsonTree>::empty());
        assert(pairs_view(pairs@) =~= Seq::<PairView>::empty());
    }
    while i < items.len()
        invariant
            i <= items@.len(),
            pairs_of(items@.take(i as int)) == Ok::<Seq<PairView>, ErrorView>(pairs_view(pairs@)),
        decreases items@.len() - i,
    {
        proof {
            assert(items@.take(i as int + 1).drop_last() =~= items@.take(i as int));
            assert(items@.take(i as int + 1).last() == items@[i as int]);
        }
        match pair_from(&items[i]) {
            Ok(p) => {
                let ghost prev = pairs_view(pairs@);
                let ghost pv = p@;
                pairs.push(p);
                proof {
                    assert(pairs_view(pairs@) =~= prev.push(pv));
                }
            },
            Err(e) => {
                proof {
                    lemma_pairs_of_prefix(items@, i as int + 1);
                }
                return Err(e);
            },
        }
        i = i + 1;
    }
    proof {
        assert(items@.take(items@.len() as int) =~= items@);
    }
    Ok(MeaningGroup { header: h.clone(), translations: pairs })
}

/// Reshapes a parsed response tree into grouped meanings.
///
/// Returns the meaning groups of the first rom of the first hit, headers in
/// first-seen order, a later duplicate header replacing the earlier entry's
/// translations; or the leftmost [`ExtractError`] met while reading.
#[verifier::loop_isolation(false)]
pub fn extract(root: &JsonTree) -> (res: Result<GroupedMeanings, ExtractError>)
    ensures
        match res {
            Ok(gm) => extract_spec(*root) == Ok::<Seq<GroupView>, ErrorView>(gm@) && gm.wf(),
            Err(e) => extract_spec(*root) == Err::<Seq<GroupView>, ErrorView>(e@),
        },
{
    let elems = match root {
        JsonTree::Array(elems) => elems,
        _ => {
            return Err(ExtractError::TypeMismatch("root".to_owned(), "array".to_owned()));
        },
    };
    if elems.len() == 0 {
        return Err(ExtractError::MissingField("root[0]".to_owned()));
    }
    let fields = match &elems[0] {
        JsonTree::Object(fields) => fields,
        _ => {
            return Err(ExtractError::TypeMismatch("root[0]".to_owned(), "object".to_owned()));
        },
    };
    let hits = match obj_get(fields, "hits") {
        None => {
            return Err(ExtractError::MissingField("root[0].hits".to_owned()));
        },
        Some(JsonTree::Array(hits)) => hits,
        Some(_) => {
            return Err(ExtractError::TypeMismatch("root[0].hits".to_owned(), "array".to_owned()));
        },
    };
    if hits.len() == 0 {
        return Err(ExtractError::EmptyHits);
    }
    let hit_fields = match &hits[0] {
        JsonTree::Object(hit_fields) => hit_fields,
        _ => {
            return Err(ExtractError::TypeMismatch("hits[0]".to_owned(), "object".to_owned()));
        },
    };
    let roms = match obj_get(hit_fields, "roms") {
        None => {
            return Err(ExtractError::MissingField("hits[0].roms".to_owned()));
        },
        Some(JsonTree::Array(roms)) => roms,
        Some(_) => {
            return Err(ExtractError::TypeMismatch("hits[0].roms".to_owned(), "array".to_owned()));
        },
    };
    if roms.len() == 0 {
        return Err(ExtractError::EmptyRoms);
    }
    let rom_fields = match &roms[0] {
        JsonTree::Object(rom_fields) => rom_fields,
        _ => {
            return Err(ExtractError::TypeMismatch("roms[0]".to_owned(), "object".to_owned()));
        },
    };
    let arabs = match obj_get(rom_fields, "arabs") {
        None => {
            return Err(ExtractError::MissingField("roms[0].arabs".to_owned()));
        },
        Some(JsonTree::Array(arabs)) => arabs,
        Some(_) => {
            return Err(ExtractError::TypeMismatch("roms[0].arabs".to_owned(), "array".to_owned()));
        },
    };
    let mut gm = GroupedMeanings::new();
    let mut i: usize = 0;
    proof {
        assert(arabs@.take(0) =~= Seq::<JsonTree>::empty());
    }
    while i < arabs.len()
        invariant
            i <= arabs@.len(),
            gm.wf(),
            groups_of(arabs@.take(i as int)) == Ok::<Seq<GroupView>, ErrorView>(gm@),
        decreases arabs@.len() - i,
    {
        proof {
            assert(arabs@.take(i as int + 1).drop_last() =~= arabs@.take(i as int));
            assert(arabs@.take(i as int + 1).last() == arabs@[i as int]);
        }
        match group_from(&arabs[i]) {
            Ok(g) => {
                gm.insert(g);
            },
            Err(e) => {
                proof {
                    lemma_groups_of_prefix(arabs@, i as int + 1);
                }
                return Err(e);
            },
        }
        i = i + 1;
    }
    proof {
        assert(arabs@.take(arabs@.len() as int) =~= arabs@);
    }
    Ok(gm)
}

} // verus!
