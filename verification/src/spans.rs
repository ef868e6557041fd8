//! Word-level changed/unchanged spans of a pair of lines, from the word
//! diff that the `similar` crate computes.

use vstd::prelude::*;

use crate::diff::{Span, SpanView, spans_view, spans_text, spans_alternate};

verus! {

/// The side of the diff that a change belongs to.
#[derive(Debug, Clone, Copy, PartialEq, Eq, Structural)]
pub enum ChangeKind {
    Equal,
    Delete,
    Insert,
}

/// One change of a word diff: a word or a run of whitespace of both sides,
/// of the old side only, or of the new side only.
#[derive(Debug)]
pub struct WordChange {
    pub kind: ChangeKind,
    pub text: String,
}

impl View for WordChange {
    type V = (ChangeKind, Seq<char>);

    open spec fn view(&self) -> (ChangeKind, Seq<char>) {
        (self.kind, self.text@)
    }
}

pub open spec fn changes_view(v: Seq<WordChange>) -> Seq<(ChangeKind, Seq<char>)> {
    v.map_values(|c: WordChange| c@)
}

/// The changes that `similar::TextDiff::from_words(old, new).iter_all_changes()`
/// yields, in order.
pub uninterp spec fn word_diff(old: Seq<char>, new: Seq<char>) -> Seq<(ChangeKind, Seq<char>)>;

/// The old side of a diff: the text of its equal and deleted changes.
pub open spec fn old_side(c: Seq<(ChangeKind, Seq<char>)>) -> Seq<char>
    decreases c.len(),
{
    if c.len() == 0 {
        seq![]
    } else if c.last().0 == ChangeKind::Insert {
        old_side(c.drop_last())
    } else {
        old_side(c.drop_last()) + c.last().1
    }
}

/// The new side of a diff: the text of its equal and inserted changes.
pub open spec fn new_side(c: Seq<(ChangeKind, Seq<char>)>) -> Seq<char>
    decreases c.len(),
{
    if c.len() == 0 {
        seq![]
    } else if c.last().0 == ChangeKind::Delete {
        new_side(c.drop_last())
    } else {
        new_side(c.drop_last()) + c.last().1
    }
}

/// The word diff of `old` and `new`, computed by `similar`
/// (`TextDiff::from_words`, Myers' algorithm, no deadline), one change per
/// token, a token being a word or a run of whitespace. The contract claims
/// that the result is a function of the two texts; that, as in every diff,
/// the equal and deleted changes spell `old` and the equal and inserted
/// changes spell `new`; that no change is empty (`tokenize_words` never
/// yields an empty token); and that equal texts give only equal changes.
/// Where the tokens start and end, and which alignment the algorithm picks
/// otherwise, is left unsaid.
#[verifier::external_body]
fn word_changes(old: &str, new: &str) -> (r: Vec<WordChange>)
    ensures
        changes_view(r@) == word_diff(old@, new@),
        old_side(changes_view(r@)) == old@,
        new_side(changes_view(r@)) == new@,
        forall|i: int| 0 <= i < r@.len() ==> (#[trigger] changes_view(r@)[i]).1.len() > 0,
        old@ == new@ ==> forall|i: int|
            0 <= i < r@.len() ==> (#[trigger] changes_view(r@)[i]).0 == ChangeKind::Equal,
{
    let diff = similar::TextDiff::from_words(old, new);
    diff.iter_all_changes().map(|c| WordChange {
        kind: match c.tag() {
            similar::ChangeTag::Equal => ChangeKind::Equal,
            similar::ChangeTag::Delete => ChangeKind::Delete,
            similar::ChangeTag::Insert => ChangeKind::Insert,
        },
        text: c.value().to_string(),
    }).collect()
}

/// `spans` with `text` added at the end: joined to the last span where that
/// span has the same flag, as a new span otherwise.
pub open spec fn pushed(spans: Seq<SpanView>, text: Seq<char>, changed: bool) -> Seq<SpanView> {
    if spans.len() > 0 && spans.last().changed == changed {
        spans.drop_last().push(SpanView { text: spans.last().text + text, changed })
    } else {
        spans.push(SpanView { text, changed })
    }
}

/// The spans of the old side of a diff: equal text unchanged, deleted text
/// changed, neighbours with the same flag joined.
pub open spec fn old_spans(c: Seq<(ChangeKind, Seq<char>)>) -> Seq<SpanView>
    decreases c.len(),
{
    if c.len() == 0 {
        seq![]
    } else {
        let prev = old_spans(c.drop_last());
        match c.last().0 {
            ChangeKind::Equal => pushed(prev, c.last().1, false),
            ChangeKind::Delete => pushed(prev, c.last().1, true),
            ChangeKind::Insert => prev,
        }
    }
}

/// The spans of the new side of a diff: equal text unchanged, inserted text
/// changed, neighbours with the same flag joined.
pub open spec fn new_spans(c: Seq<(ChangeKind, Seq<char>)>) -> Seq<SpanView>
    decreases c.len(),
{
    if c.len() == 0 {
        seq![]
    } else {
        let prev = new_spans(c.drop_last());
        match c.last().0 {
            ChangeKind::Equal => pushed(prev, c.last().1, false),
            ChangeKind::Insert => pushed(prev, c.last().1, true),
            ChangeKind::Delete => prev,
        }
    }
}

proof fn lemma_pushed(spans: Seq<SpanView>, text: Seq<char>, changed: bool)
    requires
        spans_alternate(spans),
    ensures
        spans_text(pushed(spans, text, changed)) == spans_text(spans) + text,
        spans_alternate(pushed(spans, text, changed)),
{
    let r = pushed(spans, text, changed);
    if spans.len() > 0 && spans.last().changed == changed {
        assert(r.drop_last() =~= spans.drop_last());
        assert(spans_text(spans) == spans_text(spans.drop_last()) + spans.last().text);
        assert(spans_text(r) =~= spans_text(spans) + text);
    } else {
        assert(r.drop_last() =~= spans);
    }
}

/// The spans of each side of a diff spell that side, and neighbouring spans
/// differ in their flag.
pub proof fn lemma_spans_spell_sides(c: Seq<(ChangeKind, Seq<char>)>)
    ensures
        spans_text(old_spans(c)) == old_side(c),
        spans_text(new_spans(c)) == new_side(c),
        spans_alternate(old_spans(c)),
        spans_alternate(new_spans(c)),
    decreases c.len(),
{
    if c.len() > 0 {
        lemma_spans_spell_sides(c.drop_last());
        lemma_pushed(old_spans(c.drop_last()), c.last().1, c.last().0 == ChangeKind::Delete);
        lemma_pushed(new_spans(c.drop_last()), c.last().1, c.last().0 == ChangeKind::Insert);
    } else {
        assert(spans_text(old_spans(c)) =~= old_side(c));
        assert(spans_text(new_spans(c)) =~= new_side(c));
    }
}

/// The text of the unchanged spans, joined.
pub open spec fn unchanged_text(spans: Seq<SpanView>) -> Seq<char>
    decreases spans.len(),
{
    if spans.len() == 0 {
        seq![]
    } else if spans.last().changed {
        unchanged_text(spans.drop_last())
    } else {
        unchanged_text(spans.drop_last()) + spans.last().text
    }
}

/// The text of the equal changes of a diff, joined.
pub open spec fn equal_text(c: Seq<(ChangeKind, Seq<char>)>) -> Seq<char>
    decreases c.len(),
{
    if c.len() == 0 {
        seq![]
    } else if c.last().0 == ChangeKind::Equal {
        equal_text(c.drop_last()) + c.last().1
    } else {
        equal_text(c.drop_last())
    }
}

/// No span is empty.
pub open spec fn spans_nonempty(spans: Seq<SpanView>) -> bool {
    forall|k: int| 0 <= k < spans.len() ==> (#[trigger] spans[k]).text.len() > 0
}

/// No span is marked changed.
pub open spec fn none_changed(spans: Seq<SpanView>) -> bool {
    forall|k: int| 0 <= k < spans.len() ==> !(#[trigger] spans[k]).changed
}

proof fn lemma_pushed_shape(spans: Seq<SpanView>, text: Seq<char>, changed: bool)
    ensures
        changed ==> unchanged_text(pushed(spans, text, changed)) == unchanged_text(spans),
        !changed ==> unchanged_text(pushed(spans, text, changed)) == unchanged_text(spans) + text,
        spans_nonempty(spans) && text.len() > 0 ==> spans_nonempty(pushed(spans, text, changed)),
        none_changed(spans) && !changed ==> none_changed(pushed(spans, text, changed)),
{
    let r = pushed(spans, text, changed);
    if spans.len() > 0 && spans.last().changed == changed {
        assert(r.drop_last() =~= spans.drop_last());
        if !changed {
            assert(unchanged_text(r) =~= unchanged_text(spans) + text);
        }
        assert forall|k: int| 0 <= k < r.len() && spans_nonempty(spans) implies (#[trigger] r[k]).text.len() > 0 by {
            if k < r.len() - 1 {
                assert(r[k] == spans[k]);
            }
        }
        assert forall|k: int| 0 <= k < r.len() && none_changed(spans) && !changed implies !(#[trigger] r[k]).changed by {
            if k < r.len() - 1 {
                assert(r[k] == spans[k]);
            }
        }
    } else {
        assert(r.drop_last() =~= spans);
        assert forall|k: int| 0 <= k < r.len() && spans_nonempty(spans) && text.len() > 0 implies (
        #[trigger] r[k]).text.len() > 0 by {
            if k < r.len() - 1 {
                assert(r[k] == spans[k]);
            }
        }
        assert forall|k: int| 0 <= k < r.len() && none_changed(spans) && !changed implies !(
        #[trigger] r[k]).changed by {
            if k < r.len() - 1 {
                assert(r[k] == spans[k]);
            }
        }
    }
}

/// The spans of a diff whose changes each hold some text: no span is
/// empty, both sides' unchanged spans spell the diff's equal text, and a
/// diff of equal changes only marks nothing changed.
pub proof fn lemma_span_shapes(c: Seq<(ChangeKind, Seq<char>)>)
    requires
        forall|i: int| 0 <= i < c.len() ==> (#[trigger] c[i]).1.len() > 0,
    ensures
        spans_nonempty(old_spans(c)),
        spans_nonempty(new_spans(c)),
        unchanged_text(old_spans(c)) == equal_text(c),
        unchanged_text(new_spans(c)) == equal_text(c),
        (forall|i: int| 0 <= i < c.len() ==> (#[trigger] c[i]).0 == ChangeKind::Equal) ==> none_changed(
            old_spans(c),
        ) && none_changed(new_spans(c)),
    decreases c.len(),
{
    if c.len() > 0 {
        let p = c.drop_last();
        assert forall|i: int| 0 <= i < p.len() implies (#[trigger] p[i]).1.len() > 0 by {
            assert(p[i] == c[i]);
        }
        lemma_span_shapes(p);
        assert(c[c.len() - 1].1.len() > 0);
        lemma_pushed_shape(old_spans(p), c.last().1, c.last().0 == ChangeKind::Delete);
        lemma_pushed_shape(new_spans(p), c.last().1, c.last().0 == ChangeKind::Insert);
        if forall|i: int| 0 <= i < c.len() ==> (#[trigger] c[i]).0 == ChangeKind::Equal {
            assert forall|i: int| 0 <= i < p.len() implies (#[trigger] p[i]).0 == ChangeKind::Equal by {
                assert(p[i] == c[i]);
            }
            assert(c[c.len() - 1].0 == ChangeKind::Equal);
        }
    } else {
        assert(old_spans(c) =~= Seq::<SpanView>::empty());
        assert(new_spans(c) =~= Seq::<SpanView>::empty());
    }
}

/// Adds `text` to the end of `v`, joined to the last span where that span has
/// the same flag.
pub fn push_span(v: &mut Vec<Span>, text: &str, changed: bool)
    ensures
        spans_view(final(v)@) == pushed(spans_view(old(v)@), text@, changed),
{
    let n = v.len();
    if n > 0 && v[n - 1].changed == changed {
        let mut last = v.pop().unwrap();
        last.text.append(text);
        v.push(last);
        assert(spans_view(v@) =~= pushed(spans_view(old(v)@), text@, changed));
    } else {
        v.push(Span { text: text.to_string(), changed });
        assert(spans_view(v@) =~= pushed(spans_view(old(v)@), text@, changed));
    }
}

/// The old-side and new-side spans of the diff `changes`.
pub fn spans_from_changes(changes: &Vec<WordChange>) -> (r: (Vec<Span>, Vec<Span>))
    ensures
        spans_view(r.0@) == old_spans(changes_view(changes@)),
        spans_view(r.1@) == new_spans(changes_view(changes@)),
{
    let mut o: Vec<Span> = Vec::new();
    let mut n: Vec<Span> = Vec::new();
    let mut i: usize = 0;
    while i < changes.len()
        invariant
            i <= changes@.len(),
            spans_view(o@) == old_spans(changes_view(changes@).take(i as int)),
            spans_view(n@) == new_spans(changes_view(changes@).take(i as int)),
        decreases changes@.len() - i,
    {
        let ch = &changes[i];
        let ghost c = changes_view(changes@).take(i + 1);
        assert(c.drop_last() =~= changes_view(changes@).take(i as int));
        assert(c.last() == ch@);
        match ch.kind {
            ChangeKind::Equal => {
                push_span(&mut o, ch.text.as_str(), false);
                push_span(&mut n, ch.text.as_str(), false);
            },
            ChangeKind::Delete => {
                push_span(&mut o, ch.text.as_str(), true);
            },
            ChangeKind::Insert => {
                push_span(&mut n, ch.text.as_str(), true);
            },
        }
        i = i + 1;
    }
    assert(changes_view(changes@).take(i as int) =~= changes_view(changes@));
    (o, n)
}

/// The spans of `old` and of `new` against each other; each side's spans
/// spell it.
pub fn char_spans(old: &str, new: &str) -> (r: (Vec<Span>, Vec<Span>))
    ensures
        spans_view(r.0@) == old_spans(word_diff(old@, new@)),
        spans_view(r.1@) == new_spans(word_diff(old@, new@)),
        spans_text(spans_view(r.0@)) == old@,
        spans_text(spans_view(r.1@)) == new@,
        spans_alternate(spans_view(r.0@)),
        spans_alternate(spans_view(r.1@)),
        spans_nonempty(spans_view(r.0@)),
        spans_nonempty(spans_view(r.1@)),
        unchanged_text(spans_view(r.0@)) == unchanged_text(spans_view(r.1@)),
        old@ == new@ ==> none_changed(spans_view(r.0@)) && none_changed(spans_view(r.1@)),
{
    let changes = word_changes(old, new);
    let r = spans_from_changes(&changes);
    proof {
        let cv = changes_view(changes@);
        lemma_spans_spell_sides(cv);
        assert forall|i: int| 0 <= i < cv.len() implies (#[trigger] cv[i]).1.len() > 0 by {
            assert(cv[i].1.len() > 0);
        }
        lemma_span_shapes(cv);
    }
    r
}

} // verus!
