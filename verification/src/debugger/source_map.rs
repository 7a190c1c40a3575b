//! The map from instruction offsets to source locations.
use vstd::prelude::*;

verus! {

/// A position in the contract's source.
#[derive(Debug)]
pub struct SourceLocation {
    pub file: String,
    pub line: u32,
}

impl View for SourceLocation {
    type V = (Seq<char>, u32);

    open spec fn view(&self) -> (Seq<char>, u32) {
        (self.file@, self.line)
    }
}

impl SourceLocation {
    pub fn new(file: String, line: u32) -> (r: Self)
        ensures
            r@ == (file@, line),
    {
        SourceLocation { file, line }
    }

    /// A copy of the location.
    pub fn duplicate(&self) -> (r: Self)
        ensures
            r@ == self@,
    {
        SourceLocation { file: self.file.clone(), line: self.line }
    }
}

/// The view of an optional location.
pub open spec fn location_view(l: Option<SourceLocation>) -> Option<(Seq<char>, u32)> {
    match l {
        Some(x) => Some(x@),
        None => None,
    }
}

/// The location of the first mapping of `offset` in `mappings`.
pub open spec fn first_location(mappings: Seq<(usize, (Seq<char>, u32))>, offset: usize) -> Option<
    (Seq<char>, u32),
>
    decreases mappings.len(),
{
    if mappings.len() == 0 {
        None
    } else if mappings[0].0 == offset {
        Some(mappings[0].1)
    } else {
        first_location(mappings.drop_first(), offset)
    }
}

/// Instruction offsets mapped to source locations.
pub struct SourceMap {
    mappings: Vec<(usize, SourceLocation)>,
}

impl View for SourceMap {
    type V = Seq<(usize, (Seq<char>, u32))>;

    closed spec fn view(&self) -> Seq<(usize, (Seq<char>, u32))> {
        self.mappings@.map_values(|m: (usize, SourceLocation)| (m.0, m.1@))
    }
}

impl SourceMap {
    /// A map with no mappings.
    pub fn new() -> (r: Self)
        ensures
            r@ == Seq::<(usize, (Seq<char>, u32))>::empty(),
    {
        let r = SourceMap { mappings: Vec::new() };
        assert(r@ =~= Seq::<(usize, (Seq<char>, u32))>::empty());
        r
    }

    /// Maps `offset` to `location`; an earlier mapping of the same offset wins.
    pub fn add_mapping(&mut self, offset: usize, location: SourceLocation)
        ensures
            final(self)@ == old(self)@.push((offset, location@)),
    {
        self.mappings.push((offset, location));
        assert(final(self)@ =~= old(self)@.push((offset, location@)));
    }

    /// The source location of the instruction at `offset`, if mapped.
    pub fn lookup(&self, offset: usize) -> (r: Option<SourceLocation>)
        ensures
            location_view(r) == first_location(self@, offset),
    {
        let mut i: usize = 0;
        assert(self@.subrange(0, self@.len() as int) =~= self@);
        while i < self.mappings.len()
            invariant
                i <= self.mappings.len(),
                first_location(self@, offset) == first_location(
                    self@.subrange(i as int, self@.len() as int),
                    offset,
                ),
            decreases self.mappings.len() - i,
        {
            let ghost rest = self@.subrange(i as int, self@.len() as int);
            assert(rest[0] == self@[i as int]);
            if self.mappings[i].0 == offset {
                return Some(self.mappings[i].1.duplicate());
            }
            assert(rest.drop_first() =~= self@.subrange(i + 1, self@.len() as int));
            i = i + 1;
        }
        None
    }
}

} // verus!
