//! Markup removal: a single left-to-right scan that drops every substring
//! delimited by `<` and `>` (the delimiters included) and keeps the rest.

use vstd::prelude::*;
use vstd::string::StrSliceExecFns;

verus! {

/// Characters emitted by the scan over `s` when it starts with the given
/// `inside`-a-tag state: `<` turns the state on, `>` turns it off, neither is
/// ever emitted, and any other character is emitted exactly when the state is
/// off.
pub open spec fn strip_from(s: Seq<char>, inside: bool) -> Seq<char>
    decreases s.len(),
{
    if s.len() == 0 {
        Seq::empty()
    } else if s[0] == '<' {
        strip_from(s.drop_first(), true)
    } else if s[0] == '>' {
        strip_from(s.drop_first(), false)
    } else if inside {
        strip_from(s.drop_first(), true)
    } else {
        seq![s[0]] + strip_from(s.drop_first(), false)
    }
}

/// The `inside`-a-tag state after the scan has passed over all of `s`.
pub open spec fn inside_after(s: Seq<char>, inside: bool) -> bool
    decreases s.len(),
{
    if s.len() == 0 {
        inside
    } else if s[0] == '<' {
        inside_after(s.drop_first(), true)
    } else if s[0] == '>' {
        inside_after(s.drop_first(), false)
    } else {
        inside_after(s.drop_first(), inside)
    }
}

/// What stripping markup from `s` yields: the scan starts outside any tag.
pub open spec fn strip_spec(s: Seq<char>) -> Seq<char> {
    strip_from(s, false)
}

/// Relies on `String::push`: appends the given character to the end of the
/// string.
pub assume_specification[ String::push ](s: &mut String, c: char)
    ensures
        final(s)@ == old(s)@.push(c),
;

/// Removes `<...>`-delimited markup from `source`.
///
/// A `<` that is never closed discards the rest of the input; this is the
/// defined behaviour, not an error.
pub fn strip_html(source: &str) -> (res: String)
    ensures
        res@ == strip_spec(source@),
{
    let n: usize = source.unicode_len();
    let mut out = String::new();
    let mut inside: bool = false;
    let mut i: usize = 0;
    proof {
        assert(source@.skip(0) =~= source@);
        assert(Seq::<char>::empty() + strip_from(source@, false) =~= strip_from(source@, false));
    }
    while i < n
        invariant
            n == source@.len(),
            i <= n,
            strip_spec(source@) == out@ + strip_from(source@.skip(i as int), inside),
        decreases n - i,
    {
        let c = source.get_char(i);
        proof {
            let tail = source@.skip(i as int);
            assert(tail.len() > 0);
            assert(tail[0] == c);
            assert(tail.drop_first() =~= source@.skip(i as int + 1));
        }
        if c == '<' {
            inside = true;
        } else if c == '>' {
            inside = false;
        } else if !inside {
            let ghost prev = out@;
            out.push(c);
            proof {
                let rest = source@.skip(i as int + 1);
                assert(prev + (seq![c] + strip_from(rest, false)) =~= out@ + strip_from(
                    rest,
                    false,
                ));
            }
        }
        i = i + 1;
    }
    proof {
        assert(source@.skip(n as int) =~= Seq::<char>::empty());
        assert(out@ + strip_from(Seq::<char>::empty(), inside) =~= out@);
    }
    out
}

/// Holds when no character of `s` is a tag delimiter.
pub open spec fn tag_free(s: Seq<char>) -> bool {
    forall|i: int| 0 <= i < s.len() ==> s[i] != '<' && s[i] != '>'
}

/// Law: stripping is the identity on tag-free input, and leaves the scan
/// outside any tag.
pub proof fn lemma_strip_tag_free_identity(s: Seq<char>)
    requires
        tag_free(s),
    ensures
        strip_from(s, false) == s,
        !inside_after(s, false),
    decreases s.len(),
{
    if s.len() == 0 {
        assert(strip_from(s, false) =~= s);
    } else {
        assert(s[0] != '<' && s[0] != '>');
        assert(tag_free(s.drop_first()));
        lemma_strip_tag_free_identity(s.drop_first());
        assert(seq![s[0]] + s.drop_first() =~= s);
    }
}

/// A scan that starts inside a tag emits nothing from tag-free input and
/// stays inside the tag.
pub proof fn lemma_strip_tag_free_inside(s: Seq<char>)
    requires
        tag_free(s),
    ensures
        strip_from(s, true) == Seq::<char>::empty(),
        inside_after(s, true),
    decreases s.len(),
{
    if s.len() > 0 {
        assert(tag_free(s.drop_first()));
        lemma_strip_tag_free_inside(s.drop_first());
    }
}

/// The scan never emits a delimiter, so its output is tag-free.
pub proof fn lemma_strip_output_tag_free(s: Seq<char>, inside: bool)
    ensures
        tag_free(strip_from(s, inside)),
    decreases s.len(),
{
    if s.len() > 0 {
        lemma_strip_output_tag_free(s.drop_first(), true);
        lemma_strip_output_tag_free(s.drop_first(), false);
        if s[0] != '<' && s[0] != '>' && !inside {
            let rest = strip_from(s.drop_first(), false);
            assert forall|i: int| 0 <= i < (seq![s[0]] + rest).len() implies (seq![s[0]] + rest)[i]
                != '<' && (seq![s[0]] + rest)[i] != '>' by {
                if i > 0 {
                    assert((seq![s[0]] + rest)[i] == rest[i - 1]);
                }
            }
        }
    }
}

/// Law: stripping is idempotent; a stripped string strips to itself.
pub proof fn lemma_strip_idempotent(s: Seq<char>)
    ensures
        strip_spec(strip_spec(s)) == strip_spec(s),
{
    lemma_strip_output_tag_free(s, false);
    lemma_strip_tag_free_identity(strip_spec(s));
}

/// The scan over a concatenation is the scan over the first part followed by
/// the scan over the second, resumed in the state the first part left behind.
pub proof fn lemma_strip_from_append(a: Seq<char>, b: Seq<char>, inside: bool)
    ensures
        strip_from(a + b, inside) == strip_from(a, inside) + strip_from(b, inside_after(a, inside)),
        inside_after(a + b, inside) == inside_after(b, inside_after(a, inside)),
    decreases a.len(),
{
    if a.len() == 0 {
        assert(a + b =~= b);
        assert(strip_from(a, inside) + strip_from(b, inside) =~= strip_from(b, inside));
    } else {
        assert((a + b)[0] == a[0]);
        assert((a + b).drop_first() =~= a.drop_first() + b);
        if a[0] == '<' {
            lemma_strip_from_append(a.drop_first(), b, true);
        } else if a[0] == '>' {
            lemma_strip_from_append(a.drop_first(), b, false);
        } else {
            lemma_strip_from_append(a.drop_first(), b, inside);
            if !inside {
                assert(seq![a[0]] + (strip_from(a.drop_first(), false) + strip_from(
                    b,
                    inside_after(a.drop_first(), false),
                )) =~= (seq![a[0]] + strip_from(a.drop_first(), false)) + strip_from(
                    b,
                    inside_after(a.drop_first(), false),
                ));
            }
        }
    }
}

/// One piece of a tagged text: a run of plain characters, or one complete
/// `<...>` tag whose body is given without its delimiters.
pub enum TagSeg {
    Plain(Seq<char>),
    Tag(Seq<char>),
}

/// A segment is well formed when its text holds no delimiter of its own.
pub open spec fn seg_wf(sg: TagSeg) -> bool {
    match sg {
        TagSeg::Plain(p) => tag_free(p),
        TagSeg::Tag(t) => tag_free(t),
    }
}

/// The raw text of a segment, delimiters included.
pub open spec fn seg_raw(sg: TagSeg) -> Seq<char> {
    match sg {
        TagSeg::Plain(p) => p,
        TagSeg::Tag(t) => seq!['<'] + t + seq!['>'],
    }
}

/// The raw text of a whole segmentation.
pub open spec fn segs_raw(ss: Seq<TagSeg>) -> Seq<char>
    decreases ss.len(),
{
    if ss.len() == 0 {
        Seq::empty()
    } else {
        segs_raw(ss.drop_last()) + seg_raw(ss.last())
    }
}

/// The plain text of a segmentation: the runs outside tags, in order.
pub open spec fn segs_plain(ss: Seq<TagSeg>) -> Seq<char>
    decreases ss.len(),
{
    if ss.len() == 0 {
        Seq::empty()
    } else {
        segs_plain(ss.drop_last()) + (match ss.last() {
            TagSeg::Plain(p) => p,
            TagSeg::Tag(_) => Seq::<char>::empty(),
        })
    }
}

/// One well-formed segment strips to its plain part and leaves the scan
/// outside any tag.
proof fn lemma_strip_seg(sg: TagSeg)
    requires
        seg_wf(sg),
    ensures
        strip_from(seg_raw(sg), false) == (match sg {
            TagSeg::Plain(p) => p,
            TagSeg::Tag(_) => Seq::<char>::empty(),
        }),
        !inside_after(seg_raw(sg), false),
{
    match sg {
        TagSeg::Plain(p) => {
            lemma_strip_tag_free_identity(p);
        },
        TagSeg::Tag(t) => {
            let raw = seq!['<'] + t + seq!['>'];
            assert(raw[0] == '<');
            assert(raw.drop_first() =~= t + seq!['>']);
            lemma_strip_from_append(t, seq!['>'], true);
            lemma_strip_tag_free_inside(t);
            reveal_with_fuel(strip_from, 3);
            reveal_with_fuel(inside_after, 3);
            let close = seq!['>'];
            assert(close.len() == 1 && close[0] == '>');
            assert(close.drop_first() =~= Seq::<char>::empty());
            assert(strip_from(close, true) =~= Seq::<char>::empty());
            assert(!inside_after(close, true));
            assert(strip_from(raw, false) =~= Seq::<char>::empty());
        },
    }
}

/// Law: on text made of balanced, non-nested tags and plain runs, stripping
/// removes exactly the bracketed spans and keeps the remaining characters in
/// their relative order.
pub proof fn lemma_strip_balanced(ss: Seq<TagSeg>)
    requires
        forall|i: int| 0 <= i < ss.len() ==> seg_wf(#[trigger] ss[i]),
    ensures
        strip_spec(segs_raw(ss)) == segs_plain(ss),
        !inside_after(segs_raw(ss), false),
    decreases ss.len(),
{
    if ss.len() == 0 {
        assert(strip_spec(segs_raw(ss)) =~= segs_plain(ss));
    } else {
        let pre = ss.drop_last();
        assert(forall|i: int| 0 <= i < pre.len() ==> seg_wf(#[trigger] pre[i]));
        lemma_strip_balanced(pre);
        assert(seg_wf(ss.last()));
        lemma_strip_from_append(segs_raw(pre), seg_raw(ss.last()), false);
        lemma_strip_seg(ss.last());
    }
}

} // verus!
