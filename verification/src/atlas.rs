//! The sprite-sheet description: one line per sprite, of at least seven
//! whitespace-separated fields (name, width, height, u, v, u-extent, v-extent,
//! the last four as fractions of the sheet), and the lookup of a sprite's
//! index by its name.
use vstd::prelude::*;

use crate::text::{char_views, lines_of, split_lines, split_words, words_of};

verus! {

/// The fields of one line of the sprite-sheet description that the game
/// reads, each as written.
pub struct AtlasEntry {
    /// The sprite's name (field 0).
    pub name: Vec<char>,
    /// Left edge, as a fraction of the sheet's width (field 3).
    pub u: Vec<char>,
    /// Top edge, as a fraction of the sheet's height (field 4).
    pub v: Vec<char>,
    /// Width, as a fraction of the sheet's width (field 5).
    pub u_extent: Vec<char>,
    /// Height, as a fraction of the sheet's height (field 6).
    pub v_extent: Vec<char>,
}

/// Number of fields a line must have for the game to read it.
pub const FIELDS_PER_LINE: usize = 7;

/// Every line of the description has at least `FIELDS_PER_LINE` fields.
pub open spec fn atlas_text_valid(text: Seq<char>) -> bool {
    forall|i: int|
        0 <= i < lines_of(text).len() ==> #[trigger] words_of(lines_of(text)[i]).len()
            >= FIELDS_PER_LINE
}

/// A description is readable exactly when each of its lines has at least
/// seven fields, whether or not the last line ends in a line feed: in
/// particular a single line without a line feed is readable exactly when it
/// has seven fields or more, and so is that line followed by a line feed.
pub proof fn lemma_valid_means_seven_fields(text: Seq<char>, line: Seq<char>)
    requires
        line.len() > 0,
        forall|j: int| 0 <= j < line.len() ==> #[trigger] line[j] != '\n',
    ensures
        atlas_text_valid(text) <==> (forall|i: int|
            0 <= i < lines_of(text).len() ==> #[trigger] words_of(lines_of(text)[i]).len() >= 7),
        atlas_text_valid(line) <==> words_of(line).len() >= 7,
        line.last() != '\r' ==> (atlas_text_valid(line.push('\n')) <==> words_of(line).len()
            >= 7),
{
    crate::text::lemma_single_line(line);
    assert(lines_of(line)[0] == line);
    if line.last() != '\r' {
        assert(lines_of(line.push('\n'))[0] == line);
    }
}

/// What the game reads of a line with at least `FIELDS_PER_LINE` fields.
pub open spec fn entry_matches(e: AtlasEntry, line: Seq<char>) -> bool {
    let w = words_of(line);
    &&& e.name@ == w[0]
    &&& e.u@ == w[3]
    &&& e.v@ == w[4]
    &&& e.u_extent@ == w[5]
    &&& e.v_extent@ == w[6]
}

/// Whether every line of `text` has at least `FIELDS_PER_LINE` fields.
pub fn atlas_text_is_valid(text: &Vec<char>) -> (ok: bool)
    ensures
        ok == atlas_text_valid(text@),
{
    let lines = split_lines(text);
    let n = lines.len();
    for i in 0..n
        invariant
            n == lines@.len(),
            char_views(lines@) == lines_of(text@),
            forall|j: int|
                0 <= j < i ==> #[trigger] words_of(lines_of(text@)[j]).len() >= FIELDS_PER_LINE,
    {
        let words = split_words(&lines[i]);
        assert(lines_of(text@)[i as int] == lines@[i as int]@);
        assert(words@.len() == char_views(words@).len());
        if words.len() < FIELDS_PER_LINE {
            assert(words_of(lines_of(text@)[i as int]).len() < FIELDS_PER_LINE);
            return false;
        }
    }
    true
}

/// Reads the sprite-sheet description: one entry per line, in order.
pub fn parse_atlas(text: &Vec<char>) -> (entries: Vec<AtlasEntry>)
    requires
        atlas_text_valid(text@),
    ensures
        entries@.len() == lines_of(text@).len(),
        forall|i: int|
            0 <= i < entries@.len() ==> entry_matches(#[trigger] entries@[i], lines_of(text@)[i]),
{
    let lines = split_lines(text);
    let n = lines.len();
    let mut entries: Vec<AtlasEntry> = Vec::new();
    for i in 0..n
        invariant
            n == lines@.len(),
            char_views(lines@) == lines_of(text@),
            atlas_text_valid(text@),
            entries@.len() == i,
            forall|j: int|
                0 <= j < i ==> entry_matches(#[trigger] entries@[j], lines_of(text@)[j]),
    {
        let mut words = split_words(&lines[i]);
        assert(lines_of(text@)[i as int] == lines@[i as int]@);
        let ghost w = words_of(lines_of(text@)[i as int]);
        assert(char_views(words@) == w);
        assert(w.len() >= FIELDS_PER_LINE);
        words.truncate(FIELDS_PER_LINE);
        assert(words@[6]@ == w[6]);
        let v_extent = words.pop().unwrap();
        let u_extent = words.pop().unwrap();
        let v = words.pop().unwrap();
        let u = words.pop().unwrap();
        words.truncate(1);
        let name = words.pop().unwrap();
        let entry = AtlasEntry { name, u, v, u_extent, v_extent };
        assert(entry_matches(entry, lines_of(text@)[i as int]));
        entries.push(entry);
    }
    entries
}

/// Width in pixels of the sprite sheet image.
pub const SHEET_WIDTH: u32 = 1024;

/// Height in pixels of the sprite sheet image.
pub const SHEET_HEIGHT: u32 = 1024;

/// A sprite's rectangle on the sheet, in pixels: from its top-left corner,
/// included, to its bottom-right corner.
pub struct SpriteRect {
    pub min_x: u32,
    pub min_y: u32,
    pub max_x: u32,
    pub max_y: u32,
}

/// The rectangle of a sprite at `(x, y)` of `width` by `height` pixels.
pub fn sprite_rect(x: u32, y: u32, width: u32, height: u32) -> (r: SpriteRect)
    requires
        x + width <= u32::MAX,
        y + height <= u32::MAX,
    ensures
        r.min_x == x,
        r.min_y == y,
        r.max_x == x + width,
        r.max_y == y + height,
{
    SpriteRect { min_x: x, min_y: y, max_x: x + width, max_y: y + height }
}

/// The characters of `s`, in order.
pub fn chars_of(s: &str) -> (v: Vec<char>)
    ensures
        v@ == s@,
{
    broadcast use vstd::string::axiom_spec_iter;

    let mut v: Vec<char> = Vec::new();
    for c in it: s.chars()
        invariant
            it.seq() == s@,
            v@ == it.seq().take(it.index() as int),
    {
        v.push(c);
    }
    v
}

/// The sprite names of a sheet, by index (the line they stand on).
pub struct Atlas {
    names: Vec<Vec<char>>,
}

/// Index `i` holds the last occurrence of `name` in `names`.
pub open spec fn is_last_index_of(names: Seq<Seq<char>>, name: Seq<char>, i: int) -> bool {
    &&& 0 <= i < names.len()
    &&& names[i] == name
    &&& forall|j: int| i < j < names.len() ==> names[j] != name
}

/// `name` occurs nowhere in `names`.
pub open spec fn absent(names: Seq<Seq<char>>, name: Seq<char>) -> bool {
    forall|j: int| 0 <= j < names.len() ==> names[j] != name
}

impl View for Atlas {
    type V = Seq<Seq<char>>;

    closed spec fn view(&self) -> Seq<Seq<char>> {
        char_views(self.names@)
    }
}

/// Whether `a` and `b` hold the same characters.
pub fn same_chars(a: &Vec<char>, b: &Vec<char>) -> (r: bool)
    ensures
        r == (a@ == b@),
{
    if a.len() != b.len() {
        return false;
    }
    let n = a.len();
    for i in 0..n
        invariant
            n == a@.len(),
            n == b@.len(),
            forall|j: int| 0 <= j < i ==> a@[j] == b@[j],
    {
        if a[i] != b[i] {
            return false;
        }
    }
    assert(a@ =~= b@);
    true
}

impl Atlas {
    /// The sheet whose sprite `i` is named by entry `i`.
    pub fn from_entries(entries: &Vec<AtlasEntry>) -> (atlas: Atlas)
        ensures
            atlas@.len() == entries@.len(),
            forall|i: int| 0 <= i < entries@.len() ==> atlas@[i] == #[trigger] entries@[i].name@,
    {
        let mut names: Vec<Vec<char>> = Vec::new();
        let n = entries.len();
        for i in 0..n
            invariant
                n == entries@.len(),
                names@.len() == i,
                forall|j: int| 0 <= j < i ==> names@[j]@ == #[trigger] entries@[j].name@,
        {
            names.push(entries[i].name.clone());
        }
        Atlas { names }
    }

    /// Number of sprites.
    pub fn len(&self) -> (n: usize)
        ensures
            n == self@.len(),
    {
        self.names.len()
    }

    /// The index that `name` is found under: that of its last line, since a
    /// later line with the same name replaces an earlier one.
    pub fn index_of(&self, name: &Vec<char>) -> (r: Option<usize>)
        ensures
            match r {
                Some(i) => is_last_index_of(self@, name@, i as int),
                None => absent(self@, name@),
            },
    {
        let mut i = self.names.len();
        while i > 0
            invariant
                i <= self.names@.len(),
                forall|j: int| i <= j < self.names@.len() ==> self@[j] != name@,
            decreases i,
        {
            i = i - 1;
            if same_chars(&self.names[i], name) {
                return Some(i);
            }
        }
        None
    }

    /// `index_of` for a name given as a string.
    pub fn index_of_name(&self, name: &str) -> (r: Option<usize>)
        ensures
            match r {
                Some(i) => is_last_index_of(self@, name@, i as int),
                None => absent(self@, name@),
            },
    {
        self.index_of(&chars_of(name))
    }
}

/// A sheet read line by line keeps, for each name, the index of its last
/// line: every line's name is found, at that line or at a later line of the
/// same name, and nowhere before the last such line.
pub proof fn lemma_names_resolve_to_last_line(names: Seq<Seq<char>>, i: int, j: int)
    requires
        0 <= i < names.len(),
    ensures
        !absent(names, names[i]),
        is_last_index_of(names, names[i], j) ==> i <= j && names[j] == names[i],
        is_last_index_of(names, names[i], j) && i < names.len() - 1 && names.last() == names[i]
            ==> j == names.len() - 1,
{
    assert(names[i] == names[i]);
}

} // verus!
