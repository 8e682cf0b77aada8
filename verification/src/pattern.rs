//! The pattern engine: scanning a text for the named capture groups of a
//! regular expression and rewriting exactly the spans those groups cover.
//!
//! A scan reports, for every match, the span of the whole match and the
//! spans of its `name` and `type` groups where they are present. The
//! engine then rebuilds the text in one left-to-right pass, copying the
//! bytes outside the group spans unchanged and inserting the theme's
//! strings in place of the spans.

use vstd::prelude::*;
use vstd::utf8::encode_utf8;

use crate::theme::Theme;
use crate::theme::theme_type_chars;

verus! {

/// The named capture groups that the engine substitutes.
#[derive(Clone, Copy, Debug, PartialEq, Eq, Structural)]
pub enum GroupKind {
    Name,
    Type,
}

/// The spans one match of a pattern reports: the whole match, and the
/// `name` and `type` groups where the match defines them. Positions are
/// byte offsets into the scanned text.
#[derive(Clone, Copy, Debug)]
pub struct MatchSpans {
    pub start: usize,
    pub end: usize,
    pub name: Option<(usize, usize)>,
    pub ty: Option<(usize, usize)>,
}

/// One planned edit: replace `text[start..end]` with the string that
/// `kind` selects.
#[derive(Clone, Copy, Debug)]
pub struct Edit {
    pub start: usize,
    pub end: usize,
    pub kind: GroupKind,
}

/// Whether a group span, if present, lies within the given bounds.
pub open spec fn group_in(g: Option<(usize, usize)>, lo: int, hi: int) -> bool {
    g matches Some(s) ==> lo <= s.0 <= s.1 <= hi
}

/// What a scan guarantees of its reported spans: every span lies within
/// the text, each group span lies within its match, and the matches come
/// in increasing order without overlap.
pub open spec fn scan_wf(ms: Seq<MatchSpans>, len: int) -> bool {
    &&& forall|i: int|
        0 <= i < ms.len() ==> (#[trigger] ms[i]).start <= ms[i].end <= len
    &&& forall|i: int|
        0 <= i < ms.len() ==> group_in((#[trigger] ms[i]).name, ms[i].start as int, ms[i].end as int)
    &&& forall|i: int|
        0 <= i < ms.len() ==> group_in((#[trigger] ms[i]).ty, ms[i].start as int, ms[i].end as int)
    &&& forall|i: int, j: int|
        0 <= i < j < ms.len() ==> (#[trigger] ms[i]).end <= (#[trigger] ms[j]).start
}

/// The spans of every match of the pattern — compiled in multi-line
/// mode, as every pattern of this library is — in the text, one entry
/// per match, in scan order.
pub uninterp spec fn captures_of(pattern: Seq<char>, text: Seq<u8>) -> Seq<MatchSpans>;

/// Whether a pattern source compiles as a regular expression.
pub uninterp spec fn is_valid_pattern(pattern: Seq<char>) -> bool;

#[verifier::external_type_specification]
#[verifier::external_body]
pub struct ExRegex(regex::bytes::Regex);

#[verifier::external_type_specification]
#[verifier::external_body]
pub struct ExRegexError(regex::Error);

/// A compiled multi-line regular expression, kept together with its
/// source so that contracts can speak of what it matches.
pub struct Pattern {
    re: regex::bytes::Regex,
    source: String,
}

impl Pattern {
    /// The source the pattern was compiled from.
    pub closed spec fn src(self) -> Seq<char> {
        self.source@
    }

    /// Relies on regex::bytes::RegexBuilder: `build` with
    /// `multi_line(true)` compiles the source into a regex whose `^` and
    /// `$` anchor at line boundaries, and succeeds exactly when the
    /// source is a valid pattern.
    #[verifier::external_body]
    pub fn compile(source: String) -> (r: Result<Pattern, regex::Error>)
        ensures
            r matches Ok(p) ==> p.src() == source@,
            r is Ok <==> is_valid_pattern(source@),
    {
        match regex::bytes::RegexBuilder::new(source.as_str()).multi_line(true).build() {
            Ok(re) => Ok(Pattern { re, source }),
            Err(e) => Err(e),
        }
    }
}

/// Relies on regex::bytes::Regex::captures_iter and Captures::name: the
/// scan yields successive non-overlapping matches in left-to-right
/// order, group 0 always spans the whole match, and a named group's span
/// lies within it.
#[verifier::external_body]
fn find_captures(pattern: &Pattern, text: &[u8]) -> (r: Vec<MatchSpans>)
    ensures
        r@ == captures_of(pattern.src(), text@),
        scan_wf(r@, text@.len() as int),
{
    let mut out = Vec::new();
    for caps in pattern.re.captures_iter(text) {
        let whole = caps.get(0).unwrap();
        out.push(MatchSpans {
            start: whole.start(),
            end: whole.end(),
            name: caps.name("name").map(|m| (m.start(), m.end())),
            ty: caps.name("type").map(|m| (m.start(), m.end())),
        });
    }
    out
}

/// The string an edit inserts.
pub open spec fn replacement(k: GroupKind, name_b: Seq<u8>, type_b: Seq<u8>) -> Seq<u8> {
    match k {
        GroupKind::Name => name_b,
        GroupKind::Type => type_b,
    }
}

/// The edits one match contributes, ordered by span position: the edit
/// whose span starts first comes first, and of two spans starting
/// together the shorter comes first.
pub open spec fn match_edits(m: MatchSpans) -> Seq<Edit> {
    match (m.name, m.ty) {
        (Some(n), Some(t)) => if n.0 < t.0 || (n.0 == t.0 && n.1 <= t.1) {
            seq![
                (Edit { start: n.0, end: n.1, kind: GroupKind::Name }),
                (Edit { start: t.0, end: t.1, kind: GroupKind::Type }),
            ]
        } else {
            seq![
                (Edit { start: t.0, end: t.1, kind: GroupKind::Type }),
                (Edit { start: n.0, end: n.1, kind: GroupKind::Name }),
            ]
        },
        (Some(n), None) => seq![(Edit { start: n.0, end: n.1, kind: GroupKind::Name })],
        (None, Some(t)) => seq![(Edit { start: t.0, end: t.1, kind: GroupKind::Type })],
        (None, None) => Seq::empty(),
    }
}

/// All edits of a scan, in scan order.
pub open spec fn edits_of(ms: Seq<MatchSpans>) -> Seq<Edit>
    decreases ms.len(),
{
    if ms.len() == 0 {
        Seq::empty()
    } else {
        edits_of(ms.drop_last()) + match_edits(ms.last())
    }
}

/// The text from position `from` on, with each edit applied at its
/// recorded span, in order. An edit whose span reaches back before the
/// point the previous edit ended at, or past the end of the text, is
/// skipped; with the spans a scan reports this arises only when the two
/// group spans of one match overlap.
pub open spec fn splice(
    text: Seq<u8>,
    edits: Seq<Edit>,
    from: int,
    name_b: Seq<u8>,
    type_b: Seq<u8>,
) -> Seq<u8>
    decreases edits.len(),
{
    if edits.len() == 0 {
        text.subrange(from, text.len() as int)
    } else {
        let e = edits.first();
        if from <= e.start as int && e.start <= e.end && e.end as int <= text.len() {
            text.subrange(from, e.start as int) + replacement(e.kind, name_b, type_b) + splice(
                text,
                edits.drop_first(),
                e.end as int,
                name_b,
                type_b,
            )
        } else {
            splice(text, edits.drop_first(), from, name_b, type_b)
        }
    }
}

/// The bytes substitution inserts for the theme's name.
pub open spec fn name_bytes(t: Theme) -> Seq<u8> {
    encode_utf8(t.name@)
}

/// The bytes substitution inserts for the theme's type.
pub open spec fn type_bytes(t: Theme) -> Seq<u8> {
    encode_utf8(theme_type_chars(t.theme_type))
}

/// The rewritten text: the named-group spans of every match, found
/// against the original text, replaced in one left-to-right pass.
pub open spec fn rewritten(pattern: Seq<char>, text: Seq<u8>, theme: Theme) -> Seq<u8> {
    splice(text, edits_of(captures_of(pattern, text)), 0, name_bytes(theme), type_bytes(theme))
}

/// Appends `src[lo..hi]` to `out` and returns the extended buffer.
fn extend_with(out: Vec<u8>, src: &[u8], lo: usize, hi: usize) -> (r: Vec<u8>)
    requires
        lo <= hi <= src@.len(),
    ensures
        r@ == out@ + src@.subrange(lo as int, hi as int),
{
    let mut acc = out;
    let ghost acc0 = acc@;
    let mut j = lo;
    while j < hi
        invariant
            lo <= j <= hi <= src@.len(),
            acc@ == acc0 + src@.subrange(lo as int, j as int),
        decreases hi - j,
    {
        acc.push(src[j]);
        j = j + 1;
        proof {
            assert(src@.subrange(lo as int, j as int) =~= src@.subrange(lo as int, j - 1) + seq![
                src@[j - 1],
            ]);
        }
    }
    acc
}

/// Rebuilds `text` with the given edits applied, as `splice` describes.
fn splice_exec(text: &[u8], edits: &Vec<Edit>, name_b: &[u8], type_b: &[u8]) -> (r: Vec<u8>)
    ensures
        r@ == splice(text@, edits@, 0, name_b@, type_b@),
{
    let mut out: Vec<u8> = Vec::new();
    let mut pos: usize = 0;
    let mut i: usize = 0;
    proof {
        assert(edits@.skip(0) =~= edits@);
        assert(Seq::<u8>::empty() + splice(text@, edits@, 0, name_b@, type_b@) =~= splice(
            text@,
            edits@,
            0,
            name_b@,
            type_b@,
        ));
    }
    while i < edits.len()
        invariant
            i <= edits@.len(),
            pos <= text@.len(),
            splice(text@, edits@, 0, name_b@, type_b@) == out@ + splice(
                text@,
                edits@.skip(i as int),
                pos as int,
                name_b@,
                type_b@,
            ),
        decreases edits@.len() - i,
    {
        proof {
            assert(edits@.skip(i as int).first() == edits@[i as int]);
            assert(edits@.skip(i as int).drop_first() =~= edits@.skip(i as int + 1));
        }
        let e = edits[i];
        if pos <= e.start && e.start <= e.end && e.end <= text.len() {
            let ghost out_before = out@;
            out = extend_with(out, text, pos, e.start);
            out = match e.kind {
                GroupKind::Name => extend_with(out, name_b, 0, name_b.len()),
                GroupKind::Type => extend_with(out, type_b, 0, type_b.len()),
            };
            proof {
                assert(name_b@.subrange(0, name_b@.len() as int) =~= name_b@);
                assert(type_b@.subrange(0, type_b@.len() as int) =~= type_b@);
                assert(out@ =~= out_before + (text@.subrange(pos as int, e.start as int)
                    + replacement(e.kind, name_b@, type_b@)));
            }
            pos = e.end;
        }
        i = i + 1;
    }
    proof {
        assert(edits@.skip(edits@.len() as int) =~= Seq::<Edit>::empty());
    }
    let out = extend_with(out, text, pos, text.len());
    out
}

/// Collects the edits of a scan, match by match.
fn collect_edits(spans: &Vec<MatchSpans>) -> (r: Vec<Edit>)
    ensures
        r@ == edits_of(spans@),
{
    let mut out: Vec<Edit> = Vec::new();
    let mut i: usize = 0;
    while i < spans.len()
        invariant
            i <= spans@.len(),
            out@ == edits_of(spans@.take(i as int)),
        decreases spans@.len() - i,
    {
        let ghost out_before = out@;
        let m = spans[i];
        match (m.name, m.ty) {
            (Some(n), Some(t)) => {
                if n.0 < t.0 || (n.0 == t.0 && n.1 <= t.1) {
                    out.push(Edit { start: n.0, end: n.1, kind: GroupKind::Name });
                    out.push(Edit { start: t.0, end: t.1, kind: GroupKind::Type });
                } else {
                    out.push(Edit { start: t.0, end: t.1, kind: GroupKind::Type });
                    out.push(Edit { start: n.0, end: n.1, kind: GroupKind::Name });
                }
            },
            (Some(n), None) => {
                out.push(Edit { start: n.0, end: n.1, kind: GroupKind::Name });
            },
            (None, Some(t)) => {
                out.push(Edit { start: t.0, end: t.1, kind: GroupKind::Type });
            },
            (None, None) => {},
        }
        proof {
            assert(spans@.take(i as int + 1).drop_last() =~= spans@.take(i as int));
            assert(spans@.take(i as int + 1).last() == spans@[i as int]);
            assert(out@ =~= out_before + match_edits(spans@[i as int]));
        }
        i = i + 1;
    }
    proof {
        assert(spans@.take(spans@.len() as int) =~= spans@);
    }
    out
}

/// Edits standing in increasing position order from `from` on, each
/// span within a text of length `len`.
pub open spec fn edits_ordered_from(edits: Seq<Edit>, from: int, len: int) -> bool {
    &&& forall|i: int|
        0 <= i < edits.len() ==> from <= (#[trigger] edits[i]).start as int
    &&& forall|i: int|
        0 <= i < edits.len() ==> (#[trigger] edits[i]).start <= edits[i].end
            && edits[i].end as int <= len
    &&& forall|i: int, j: int|
        0 <= i < j < edits.len() ==> (#[trigger] edits[i]).end <= (#[trigger] edits[j]).start
}

/// The text with every edit applied: the bytes before the first span,
/// the first replacement, the bytes between the spans, and so on, ending
/// with the bytes after the last span.
pub open spec fn stitched(
    text: Seq<u8>,
    edits: Seq<Edit>,
    from: int,
    name_b: Seq<u8>,
    type_b: Seq<u8>,
) -> Seq<u8>
    decreases edits.len(),
{
    if edits.len() == 0 {
        text.subrange(from, text.len() as int)
    } else {
        let e = edits.first();
        text.subrange(from, e.start as int) + replacement(e.kind, name_b, type_b) + stitched(
            text,
            edits.drop_first(),
            e.end as int,
            name_b,
            type_b,
        )
    }
}

/// Where the spans stand in increasing order and within the text, the
/// single pass applies every edit: each span is replaced with its
/// string, and the bytes outside the spans are kept, in order, byte for
/// byte.
pub proof fn lemma_splice_applies_all(
    text: Seq<u8>,
    edits: Seq<Edit>,
    from: int,
    name_b: Seq<u8>,
    type_b: Seq<u8>,
)
    requires
        0 <= from <= text.len(),
        edits_ordered_from(edits, from, text.len() as int),
    ensures
        splice(text, edits, from, name_b, type_b) == stitched(text, edits, from, name_b, type_b),
    decreases edits.len(),
{
    if edits.len() > 0 {
        let e = edits.first();
        assert(edits_ordered_from(edits.drop_first(), e.end as int, text.len() as int)) by {
            assert forall|i: int| 0 <= i < edits.drop_first().len() implies e.end as int <= (
            #[trigger] edits.drop_first()[i]).start as int by {
                assert(edits.drop_first()[i] == edits[i + 1]);
            }
            assert forall|i: int, j: int| 0 <= i < j < edits.drop_first().len() implies (
            #[trigger] edits.drop_first()[i]).end <= (#[trigger] edits.drop_first()[j]).start by {
                assert(edits.drop_first()[i] == edits[i + 1]);
                assert(edits.drop_first()[j] == edits[j + 1]);
            }
        }
        lemma_splice_applies_all(text, edits.drop_first(), e.end as int, name_b, type_b);
    }
}

/// A scan whose matches define no named group plans no edit, and the
/// pattern is inert: rewriting returns the whole text unchanged.
pub proof fn lemma_inert_scan(
    text: Seq<u8>,
    ms: Seq<MatchSpans>,
    name_b: Seq<u8>,
    type_b: Seq<u8>,
)
    requires
        forall|i: int| 0 <= i < ms.len() ==> (#[trigger] ms[i]).name is None && ms[i].ty is None,
    ensures
        splice(text, edits_of(ms), 0, name_b, type_b) == text,
    decreases ms.len(),
{
    if ms.len() == 0 {
        assert(splice(text, edits_of(ms), 0, name_b, type_b) =~= text);
    } else {
        assert(forall|i: int|
            0 <= i < ms.drop_last().len() ==> (#[trigger] ms.drop_last()[i]).name is None
                && ms.drop_last()[i].ty is None);
        assert(match_edits(ms.last()) =~= Seq::<Edit>::empty());
        assert(edits_of(ms) =~= edits_of(ms.drop_last()));
        lemma_inert_scan(text, ms.drop_last(), name_b, type_b);
    }
}

/// Whether, within each match of a scan, the two group spans do not
/// overlap.
pub open spec fn groups_disjoint(ms: Seq<MatchSpans>) -> bool {
    forall|i: int|
        0 <= i < ms.len() ==> ((#[trigger] ms[i]).name matches Some(n) && ms[i].ty matches Some(t)
            ==> (n.1 <= t.0 || t.1 <= n.0))
}

/// The edits of a well-formed scan whose matches hold no overlapping
/// group spans stand in increasing order, each within the text: no edit
/// of such a scan is ever skipped.
pub proof fn lemma_scan_edits_ordered(ms: Seq<MatchSpans>, len: int)
    requires
        scan_wf(ms, len),
        groups_disjoint(ms),
    ensures
        edits_ordered_from(edits_of(ms), 0, len),
        forall|k: int|
            0 <= k < edits_of(ms).len() && ms.len() > 0 ==> (#[trigger] edits_of(
                ms,
            )[k]).end as int <= ms.last().end as int,
    decreases ms.len(),
{
    if ms.len() > 0 {
        let before = ms.drop_last();
        let m = ms.last();
        assert(scan_wf(before, len)) by {
            assert(forall|i: int| 0 <= i < before.len() ==> before[i] == ms[i]);
        }
        assert(groups_disjoint(before)) by {
            assert(forall|i: int| 0 <= i < before.len() ==> before[i] == ms[i]);
        }
        lemma_scan_edits_ordered(before, len);
        let eb = edits_of(before);
        let em = match_edits(m);
        assert(edits_of(ms) == eb + em);
        // Each edit of the last match lies within that match, and the two
        // stand in order because the spans do not overlap.
        assert(forall|k: int|
            0 <= k < em.len() ==> m.start <= (#[trigger] em[k]).start && em[k].start <= em[k].end
                && em[k].end <= m.end);
        assert(forall|k: int, l: int| 0 <= k < l < em.len() ==> (#[trigger] em[k]).end <= (
        #[trigger] em[l]).start);
        // Every earlier edit ends before the last match starts.
        if before.len() > 0 {
            assert(before.last() == ms[ms.len() - 2]);
            assert(before.last().end <= m.start);
        }
        assert forall|k: int, l: int| 0 <= k < l < edits_of(ms).len() implies (#[trigger] edits_of(
        ms)[k]).end <= (#[trigger] edits_of(ms)[l]).start by {
            if k < eb.len() && l >= eb.len() {
                assert(edits_of(ms)[k] == eb[k]);
                assert(edits_of(ms)[l] == em[l - eb.len()]);
                assert(eb[k].end as int <= before.last().end as int);
            } else if l < eb.len() {
                assert(edits_of(ms)[k] == eb[k]);
                assert(edits_of(ms)[l] == eb[l]);
            } else {
                assert(edits_of(ms)[k] == em[k - eb.len()]);
                assert(edits_of(ms)[l] == em[l - eb.len()]);
            }
        }
        assert forall|k: int| 0 <= k < edits_of(ms).len() implies (#[trigger] edits_of(
        ms)[k]).end as int <= m.end as int by {
            if k < eb.len() {
                assert(edits_of(ms)[k] == eb[k]);
                assert(eb[k].end as int <= before.last().end as int);
            } else {
                assert(edits_of(ms)[k] == em[k - eb.len()]);
            }
        }
        assert forall|k: int| 0 <= k < edits_of(ms).len() implies 0 <= (#[trigger] edits_of(
        ms)[k]).start as int && edits_of(ms)[k].start <= edits_of(ms)[k].end && edits_of(
        ms)[k].end as int <= len by {
            if k < eb.len() {
                assert(edits_of(ms)[k] == eb[k]);
            } else {
                assert(edits_of(ms)[k] == em[k - eb.len()]);
            }
        }
    }
}

/// For a well-formed scan whose matches hold no overlapping group spans
/// — every scan the engine performs, short of degenerate patterns whose
/// two groups nest — rewriting replaces every named-group span with its
/// string and keeps the bytes outside the spans, in order, byte for
/// byte.
pub proof fn lemma_scan_rewrite_complete(
    text: Seq<u8>,
    ms: Seq<MatchSpans>,
    name_b: Seq<u8>,
    type_b: Seq<u8>,
)
    requires
        scan_wf(ms, text.len() as int),
        groups_disjoint(ms),
    ensures
        splice(text, edits_of(ms), 0, name_b, type_b) == stitched(
            text,
            edits_of(ms),
            0,
            name_b,
            type_b,
        ),
{
    lemma_scan_edits_ordered(ms, text.len() as int);
    lemma_splice_applies_all(text, edits_of(ms), 0, name_b, type_b);
}

/// Splicing spans that already hold their replacement changes nothing:
/// substitution cannot drift. Applying the engine a second time returns
/// the same text whenever the second scan's group spans already hold the
/// theme's strings.
pub proof fn lemma_splice_fixed_point(
    text: Seq<u8>,
    edits: Seq<Edit>,
    from: int,
    name_b: Seq<u8>,
    type_b: Seq<u8>,
)
    requires
        0 <= from <= text.len(),
        forall|i: int|
            0 <= i < edits.len() ==> (#[trigger] edits[i]).start <= edits[i].end
                && edits[i].end as int <= text.len(),
        forall|i: int|
            0 <= i < edits.len() ==> text.subrange(
                (#[trigger] edits[i]).start as int,
                edits[i].end as int,
            ) == replacement(edits[i].kind, name_b, type_b),
    ensures
        splice(text, edits, from, name_b, type_b) == text.subrange(from, text.len() as int),
    decreases edits.len(),
{
    if edits.len() > 0 {
        let e = edits.first();
        assert(forall|i: int|
            0 <= i < edits.drop_first().len() ==> #[trigger] edits.drop_first()[i] == edits[i
                + 1]);
        if from <= e.start as int {
            lemma_splice_fixed_point(text, edits.drop_first(), e.end as int, name_b, type_b);
            assert(text.subrange(from, e.start as int) + text.subrange(
                e.start as int,
                e.end as int,
            ) + text.subrange(e.end as int, text.len() as int) =~= text.subrange(
                from,
                text.len() as int,
            ));
        } else {
            lemma_splice_fixed_point(text, edits.drop_first(), from, name_b, type_b);
        }
    }
}

/// Applies one pattern to a text. The text is scanned once; the span of
/// each match's `name` group is replaced with the theme's name and the
/// span of each `type` group with the theme type's canonical form, both
/// in UTF-8, while every byte outside those spans is kept. Returns
/// `None` exactly when the pattern matches nowhere in the text.
pub fn use_pattern(pattern: &Pattern, contents: &[u8], theme: &Theme) -> (r: Option<Vec<u8>>)
    ensures
        r is Some <==> captures_of(pattern.src(), contents@).len() > 0,
        r matches Some(v) ==> v@ == rewritten(pattern.src(), contents@, *theme),
{
    let spans = find_captures(pattern, contents);
    if spans.len() == 0 {
        return None;
    }
    let edits = collect_edits(&spans);
    let label = theme.theme_type.label();
    let out = splice_exec(
        contents,
        &edits,
        theme.name.as_str().as_bytes(),
        label.as_str().as_bytes(),
    );
    Some(out)
}

} // verus!


