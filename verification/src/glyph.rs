//! The four significant glyphs and the filter that turns source text into a
//! tape.

use vstd::prelude::*;

verus! {

/// One of the four symbols that carry meaning in a program.
#[derive(Clone, Copy, Debug, PartialEq, Eq, Structural)]
pub enum Glyph {
    /// `木`
    Tree,
    /// `野`
    Field,
    /// `ど`, the run marker: a run of these is a literal.
    Run,
    /// `松`
    Pine,
}

/// The glyph that a character stands for, if it is one of the four.
pub open spec fn glyph_of(c: char) -> Option<Glyph> {
    if c == '木' {
        Some(Glyph::Tree)
    } else if c == '野' {
        Some(Glyph::Field)
    } else if c == 'ど' {
        Some(Glyph::Run)
    } else if c == '松' {
        Some(Glyph::Pine)
    } else {
        None
    }
}

/// The tape of a source text: its significant glyphs in the order in which
/// they stand, everything else dropped.
pub open spec fn tape_of(source: Seq<char>) -> Seq<Glyph> {
    source.filter_map(|c: char| glyph_of(c))
}

impl Glyph {
    /// The character that is written for this glyph.
    pub open spec fn symbol_spec(self) -> char {
        match self {
            Glyph::Tree => '木',
            Glyph::Field => '野',
            Glyph::Run => 'ど',
            Glyph::Pine => '松',
        }
    }

    /// Recognises one character.
    pub fn classify(c: char) -> (glyph: Option<Glyph>)
        ensures
            glyph == glyph_of(c),
    {
        if c == '木' {
            Some(Glyph::Tree)
        } else if c == '野' {
            Some(Glyph::Field)
        } else if c == 'ど' {
            Some(Glyph::Run)
        } else if c == '松' {
            Some(Glyph::Pine)
        } else {
            None
        }
    }

    /// The character that is written for this glyph.
    pub fn symbol(self) -> (c: char)
        ensures
            c == self.symbol_spec(),
            glyph_of(c) == Some(self),
    {
        match self {
            Glyph::Tree => '木',
            Glyph::Field => '野',
            Glyph::Run => 'ど',
            Glyph::Pine => '松',
        }
    }
}

/// Scans a source text once and keeps only its glyphs.
pub fn tokenize(source: &str) -> (tape: Vec<Glyph>)
    ensures
        tape@ == tape_of(source@),
{
    let mut tape: Vec<Glyph> = Vec::new();
    for c in it: source.chars()
        invariant
            it.seq() == source@,
            tape@ == tape_of(source@.take(it.index() as int)),
    {
        proof {
            source@.lemma_filter_map_take_succ(|c: char| glyph_of(c), it.index() as int);
        }
        match Glyph::classify(c) {
            Some(glyph) => {
                tape.push(glyph);
            },
            None => {},
        }
    }
    assert(source@.take(source@.len() as int) == source@);
    tape
}

} // verus!
