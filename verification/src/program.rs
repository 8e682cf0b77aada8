//! Target programs: a file glob, an ordered list of patterns, and the
//! hooks run after the files are rewritten. The verified part is the
//! substitution orchestration for one file's contents; expanding the
//! glob, reading and writing the files and spawning the hooks is I/O
//! left to the caller.

use vstd::prelude::*;

use crate::pattern::Pattern;
use crate::pattern::captures_of;
use crate::pattern::is_valid_pattern;
use crate::pattern::rewritten;
use crate::pattern::use_pattern;
use crate::theme::Theme;

verus! {

/// One target program: its name, the glob of its configuration files, the
/// patterns rewritten in them, and the hooks run afterwards.
#[derive(Clone, Debug)]
pub struct Program {
    pub name: String,
    pub path: String,
    pub patterns: Vec<String>,
    pub hooks: Vec<String>,
}

/// A pattern in a program's list that does not compile as a regular
/// expression; `index` is its position in the list.
#[derive(Clone, Copy, Debug, PartialEq, Eq, Structural)]
pub struct PatternError {
    pub index: usize,
}

/// One step of the applicator: the text after one pattern, unchanged
/// where the pattern matches nowhere.
pub open spec fn step_one(pattern: Seq<char>, text: Seq<u8>, theme: Theme) -> Seq<u8> {
    if captures_of(pattern, text).len() > 0 {
        rewritten(pattern, text, theme)
    } else {
        text
    }
}

/// The text after every pattern of the list, each taken in order against
/// the result of the one before it.
pub open spec fn apply_all(patterns: Seq<Seq<char>>, text: Seq<u8>, theme: Theme) -> Seq<u8>
    decreases patterns.len(),
{
    if patterns.len() == 0 {
        text
    } else {
        apply_all(patterns.drop_first(), step_one(patterns.first(), text, theme), theme)
    }
}

/// Whether some pattern of the list matches the buffer it is applied to:
/// the first against the given text, each later one against the output
/// of the one before it.
pub open spec fn some_pattern_matched(patterns: Seq<Seq<char>>, text: Seq<u8>, theme: Theme) -> bool
    decreases patterns.len(),
{
    if patterns.len() == 0 {
        false
    } else {
        captures_of(patterns.first(), text).len() > 0 || some_pattern_matched(
            patterns.drop_first(),
            step_one(patterns.first(), text, theme),
            theme,
        )
    }
}

/// Adding one pattern at the end of the list applies it to the text the
/// earlier patterns produced.
pub proof fn lemma_apply_all_snoc(
    patterns: Seq<Seq<char>>,
    p: Seq<char>,
    text: Seq<u8>,
    theme: Theme,
)
    ensures
        apply_all(patterns.push(p), text, theme) == step_one(
            p,
            apply_all(patterns, text, theme),
            theme,
        ),
        some_pattern_matched(patterns.push(p), text, theme) == (some_pattern_matched(
            patterns,
            text,
            theme,
        ) || captures_of(p, apply_all(patterns, text, theme)).len() > 0),
    decreases patterns.len(),
{
    if patterns.len() == 0 {
        let rest = patterns.push(p).drop_first();
        assert(patterns.push(p).first() == p);
        assert(rest =~= Seq::<Seq<char>>::empty());
        assert(apply_all(rest, step_one(p, text, theme), theme) == step_one(p, text, theme));
        assert(!some_pattern_matched(rest, step_one(p, text, theme), theme));
        assert(apply_all(patterns, text, theme) == text);
    } else {
        let t1 = step_one(patterns.first(), text, theme);
        assert(patterns.push(p).first() == patterns.first());
        assert(patterns.push(p).drop_first() =~= patterns.drop_first().push(p));
        lemma_apply_all_snoc(patterns.drop_first(), p, t1, theme);
        assert(apply_all(patterns, text, theme) == apply_all(patterns.drop_first(), t1, theme));
        assert(apply_all(patterns.push(p), text, theme) == apply_all(
            patterns.drop_first().push(p),
            t1,
            theme,
        ));
        assert(some_pattern_matched(patterns.push(p), text, theme) == (captures_of(
            patterns.first(),
            text,
        ).len() > 0 || some_pattern_matched(patterns.drop_first().push(p), t1, theme)));
    }
}

/// A run in which no pattern matched leaves the text unchanged: such a
/// file need not be written back.
pub proof fn lemma_unmatched_unchanged(patterns: Seq<Seq<char>>, text: Seq<u8>, theme: Theme)
    requires
        !some_pattern_matched(patterns, text, theme),
    ensures
        apply_all(patterns, text, theme) == text,
    decreases patterns.len(),
{
    if patterns.len() > 0 {
        assert(step_one(patterns.first(), text, theme) == text);
        lemma_unmatched_unchanged(patterns.drop_first(), text, theme);
    }
}

impl Program {
    /// The pattern sources, as character sequences, in list order.
    pub open spec fn pattern_views(self) -> Seq<Seq<char>> {
        Seq::new(self.patterns@.len(), |i: int| self.patterns@[i]@)
    }

    /// Applies every pattern of this program, in list order, to one
    /// file's contents; each pattern scans the buffer the one before it
    /// produced. Returns the final buffer together with whether any
    /// pattern matched — only then does the file need rewriting — or the
    /// position of the first pattern that does not compile.
    pub fn apply_to_contents(&self, contents: Vec<u8>, theme: &Theme) -> (r: Result<
        (Vec<u8>, bool),
        PatternError,
    >)
        ensures
            r matches Ok(p) ==> p.0@ == apply_all(self.pattern_views(), contents@, *theme),
            r matches Ok(p) ==> p.1 == some_pattern_matched(
                self.pattern_views(),
                contents@,
                *theme,
            ),
            r matches Ok(p) ==> (!p.1 ==> p.0@ == contents@),
            r is Ok <==> (forall|i: int|
                0 <= i < self.patterns@.len() ==> is_valid_pattern((#[trigger] self.patterns@[i])@)),
            r matches Err(e) ==> e.index < self.patterns@.len() && !is_valid_pattern(
                self.patterns@[e.index as int]@,
            ) && (forall|j: int|
                0 <= j < e.index ==> is_valid_pattern((#[trigger] self.patterns@[j])@)),
    {
        let ghost views = self.pattern_views();
        let ghost text0 = contents@;
        let mut buf = contents;
        let mut modified = false;
        let mut i: usize = 0;
        while i < self.patterns.len()
            invariant
                i <= self.patterns@.len(),
                views == self.pattern_views(),
                buf@ == apply_all(views.take(i as int), text0, *theme),
                modified == some_pattern_matched(views.take(i as int), text0, *theme),
                forall|j: int| 0 <= j < i ==> is_valid_pattern((#[trigger] self.patterns@[j])@),
            decreases self.patterns@.len() - i,
        {
            let source = self.patterns[i].clone();
            let pattern = match Pattern::compile(source) {
                Ok(p) => p,
                Err(_) => {
                    return Err(PatternError { index: i });
                },
            };
            proof {
                assert(views.take(i as int + 1) =~= views.take(i as int).push(views[i as int]));
                lemma_apply_all_snoc(views.take(i as int), views[i as int], text0, *theme);
            }
            match use_pattern(&pattern, buf.as_slice(), theme) {
                Some(c) => {
                    buf = c;
                    modified = true;
                },
                None => {},
            }
            i = i + 1;
        }
        proof {
            assert(views.take(views.len() as int) =~= views);
            if !modified {
                lemma_unmatched_unchanged(views, text0, *theme);
            }
        }
        Ok((buf, modified))
    }
}

} // verus!
