//! Text with highlighted character positions, as shown for a match and its
//! paths in a picker.
use vstd::prelude::*;

verus! {

/// The colors a label can take.
#[derive(Clone, Copy, Debug, Default, PartialEq, Eq, Structural)]
pub enum Color {
    #[default]
    Default,
    Accent,
    Muted,
    Disabled,
    Placeholder,
    Hint,
    Error,
    Warning,
    Success,
    Info,
    Selected,
}

/// The sizes a label can take.
#[derive(Clone, Copy, Debug, Default, PartialEq, Eq, Structural)]
pub enum LabelSize {
    #[default]
    Default,
    Large,
    Small,
    XSmall,
}

/// Text, the character positions to highlight in it, its length in
/// characters, and its color.
#[derive(Clone, Debug)]
pub struct HighlightedText {
    pub text: String,
    pub highlight_positions: Vec<usize>,
    pub char_count: usize,
    pub color: Color,
}

/// A label ready to be shown: text with highlights, a size and a color.
#[derive(Clone, Debug)]
pub struct HighlightedLabel {
    pub text: String,
    pub highlight_positions: Vec<usize>,
    pub size: LabelSize,
    pub color: Color,
}

/// A match with the paths it was found under.
#[derive(Clone, Debug)]
pub struct HighlightedMatchWithPaths {
    pub match_label: HighlightedText,
    pub paths: Vec<HighlightedText>,
}

/// The text of the components joined by the separator. A separator goes in
/// only once some text has been written.
pub open spec fn joined_text(cs: Seq<HighlightedText>, sep: Seq<char>) -> Seq<char>
    decreases cs.len(),
{
    if cs.len() == 0 {
        Seq::empty()
    } else {
        let prev = joined_text(cs.drop_last(), sep);
        let lead = if prev.len() != 0 { prev + sep } else { prev };
        lead + cs.last().text@
    }
}

/// Where the last component starts in the joined text.
pub open spec fn last_start(cs: Seq<HighlightedText>, sep: Seq<char>) -> int {
    let prev = joined_text(cs.drop_last(), sep);
    if prev.len() != 0 { (prev.len() + sep.len()) as int } else { 0 }
}

/// The highlight positions of the components, each moved by where its
/// component starts in the joined text.
pub open spec fn joined_positions(cs: Seq<HighlightedText>, sep: Seq<char>) -> Seq<int>
    decreases cs.len(),
{
    if cs.len() == 0 {
        Seq::empty()
    } else {
        let offset = last_start(cs, sep);
        joined_positions(cs.drop_last(), sep) + cs.last().highlight_positions@.map_values(|p: usize| p + offset)
    }
}

/// The joined text only grows as components are added.
pub proof fn lemma_joined_text_grows(cs: Seq<HighlightedText>, sep: Seq<char>, i: int)
    requires
        0 <= i <= cs.len(),
    ensures
        joined_text(cs.subrange(0, i), sep).len() <= joined_text(cs, sep).len(),
    decreases cs.len(),
{
    if i < cs.len() {
        assert(cs.drop_last().subrange(0, i) =~= cs.subrange(0, i));
        lemma_joined_text_grows(cs.drop_last(), sep, i);
    } else {
        assert(cs.subrange(0, i) =~= cs);
    }
}

impl HighlightedText {
    /// The components one after another, with the separator between them,
    /// and their highlights moved along. The result has the default color.
    pub fn join(components: &Vec<HighlightedText>, separator: &str) -> (r: HighlightedText)
        requires
            forall|i: int, j: int| 0 <= i < components@.len() && 0 <= j < components@[i].highlight_positions@.len()
                ==> #[trigger] components@[i].highlight_positions@[j] + joined_text(components@, separator@).len() <= usize::MAX,
            joined_text(components@, separator@).len() <= usize::MAX,
        ensures
            r.text@ == joined_text(components@, separator@),
            r.char_count == r.text@.len(),
            r.highlight_positions@.len() == joined_positions(components@, separator@).len(),
            forall|k: int| 0 <= k < r.highlight_positions@.len() ==> #[trigger] r.highlight_positions@[k] as int
                == joined_positions(components@, separator@)[k],
            r.color == Color::Default,
    {
        let ghost cs = components@;
        let ghost sep = separator@;
        let separator_char_count = separator.unicode_len();
        let mut char_count: usize = 0;
        let mut text = String::new();
        let mut highlight_positions: Vec<usize> = Vec::new();
        let mut i: usize = 0;
        while i < components.len()
            invariant
                cs == components@,
                sep == separator@,
                separator_char_count == sep.len(),
                i <= cs.len(),
                text@ == joined_text(cs.subrange(0, i as int), sep),
                char_count == text@.len(),
                highlight_positions@.len() == joined_positions(cs.subrange(0, i as int), sep).len(),
                forall|k: int| 0 <= k < highlight_positions@.len() ==> #[trigger] highlight_positions@[k] as int
                    == joined_positions(cs.subrange(0, i as int), sep)[k],
                forall|a: int, b: int| 0 <= a < cs.len() && 0 <= b < cs[a].highlight_positions@.len()
                    ==> #[trigger] cs[a].highlight_positions@[b] + joined_text(cs, sep).len() <= usize::MAX,
                joined_text(cs, sep).len() <= usize::MAX,
            decreases cs.len() - i,
        {
            let ghost prefix = cs.subrange(0, i as int + 1);
            proof {
                assert(prefix.drop_last() =~= cs.subrange(0, i as int));
                assert(prefix.last() == cs[i as int]);
                lemma_joined_text_grows(cs, sep, i as int + 1);
            }
            let component = &components[i];
            if char_count != 0 {
                text.append(separator);
                char_count = char_count + separator_char_count;
            }
            let offset = char_count;
            let ghost before = highlight_positions@;
            let mut j: usize = 0;
            while j < component.highlight_positions.len()
                invariant
                    cs == components@,
                    i < cs.len(),
                    component == &cs[i as int],
                    offset as int == last_start(prefix, sep),
                    last_start(prefix, sep) <= joined_text(cs, sep).len(),
                    forall|b: int| 0 <= b < component.highlight_positions@.len()
                        ==> #[trigger] component.highlight_positions@[b] + joined_text(cs, sep).len() <= usize::MAX,
                    j <= component.highlight_positions@.len(),
                    highlight_positions@.len() == before.len() + j,
                    forall|k: int| 0 <= k < before.len() ==> #[trigger] highlight_positions@[k] == before[k],
                    forall|k: int| 0 <= k < j ==> #[trigger] highlight_positions@[before.len() + k] as int
                        == component.highlight_positions@[k] + offset,
                decreases component.highlight_positions@.len() - j,
            {
                highlight_positions.push(component.highlight_positions[j] + offset);
                j = j + 1;
            }
            text.append(component.text.as_str());
            proof {
                assert(joined_text(prefix, sep).len() <= joined_text(cs, sep).len());
            }
            char_count = char_count + component.text.as_str().unicode_len();
            i = i + 1;
            proof {
                let jp = joined_positions(prefix, sep);
                let prev = joined_positions(cs.subrange(0, i as int - 1), sep);
                assert(jp =~= prev + cs[i as int - 1].highlight_positions@.map_values(|p: usize| p + last_start(prefix, sep)));
                assert forall|k: int| 0 <= k < highlight_positions@.len() implies #[trigger] highlight_positions@[k] as int == jp[k] by {
                    if k >= before.len() {
                        let m = k - before.len();
                        assert(highlight_positions@[before.len() + m] as int == component.highlight_positions@[m] + offset);
                    }
                }
            }
        }
        assert(cs.subrange(0, cs.len() as int) =~= cs);
        HighlightedText { text, highlight_positions, char_count, color: Color::Default }
    }

    /// The same text in another color.
    pub fn color(self, color: Color) -> (r: HighlightedText)
        ensures
            r.text == self.text,
            r.highlight_positions == self.highlight_positions,
            r.char_count == self.char_count,
            r.color == color,
    {
        HighlightedText { color, ..self }
    }
}

impl HighlightedMatchWithPaths {
    /// The labels shown under the match, one per path: small and muted.
    pub fn render_paths_children(&self) -> (labels: Vec<HighlightedLabel>)
        ensures
            labels@.len() == self.paths@.len(),
            forall|k: int| 0 <= k < labels@.len() ==> {
                &&& (#[trigger] labels@[k]).text == self.paths@[k].text
                &&& labels@[k].highlight_positions@ == self.paths@[k].highlight_positions@
                &&& labels@[k].size == LabelSize::Small
                &&& labels@[k].color == Color::Muted
            },
    {
        let mut labels: Vec<HighlightedLabel> = Vec::new();
        let mut k: usize = 0;
        while k < self.paths.len()
            invariant
                k <= self.paths@.len(),
                labels@.len() == k,
                forall|x: int| 0 <= x < k ==> {
                    &&& (#[trigger] labels@[x]).text == self.paths@[x].text
                    &&& labels@[x].highlight_positions@ == self.paths@[x].highlight_positions@
                    &&& labels@[x].size == LabelSize::Small
                    &&& labels@[x].color == Color::Muted
                },
            decreases self.paths@.len() - k,
        {
            let path = &self.paths[k];
            let mut positions: Vec<usize> = Vec::new();
            let mut j: usize = 0;
            while j < path.highlight_positions.len()
                invariant
                    j <= path.highlight_positions@.len(),
                    positions@ == path.highlight_positions@.subrange(0, j as int),
                decreases path.highlight_positions@.len() - j,
            {
                positions.push(path.highlight_positions[j]);
                j = j + 1;
                assert(positions@ =~= path.highlight_positions@.subrange(0, j as int));
            }
            assert(path.highlight_positions@.subrange(0, path.highlight_positions@.len() as int) =~= path.highlight_positions@);
            labels.push(HighlightedLabel {
                text: path.text.clone(),
                highlight_positions: positions,
                size: LabelSize::Small,
                color: Color::Muted,
            });
            k = k + 1;
        }
        labels
    }
}

} // verus!
