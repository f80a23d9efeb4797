//! The caller-supplied path abstraction: a sequence of named segments with
//! a well-defined absolute/relative distinction.
//!
//! The store does not parse or normalize path text itself; callers build a
//! [`PathKey`] from already-split segments and mark it absolute or relative.

use vstd::prelude::*;

verus! {

/// What a segment name may look like: non-empty and free of the `/`
/// separator.  Splitting real path text on `/` can produce nothing else,
/// and keeping to such segments keeps every rendered path unambiguous.
pub open spec fn seg_ok(s: Seq<char>) -> bool {
    s.len() > 0 && forall|j: int| 0 <= j < s.len() ==> s[j] != '/'
}

/// A path-like key: a sequence of named segments, either rooted at the top
/// of the hierarchy (absolute) or interpreted relative to some other
/// location (relative).  Only absolute keys can be inserted into a store.
///
/// The constructors demand proper segment names (see [`seg_ok`]), so a key
/// built by verified code is always well-formed.
pub struct PathKey {
    pub(crate) absolute: bool,
    pub(crate) segments: Vec<String>,
}

impl PathKey {
    /// Whether this key is rooted at the top of the hierarchy.
    pub closed spec fn spec_is_absolute(&self) -> bool {
        self.absolute
    }

    /// The segment names of this key, as a mathematical sequence.
    pub closed spec fn segs(&self) -> Seq<Seq<char>> {
        self.segments@.map_values(|s: String| s@)
    }

    /// Every segment of this key is a proper segment name.
    pub open spec fn well_formed(&self) -> bool {
        forall|k: int| 0 <= k < self.segs().len() ==> seg_ok(#[trigger] self.segs()[k])
    }

    /// How the two spec views read off the fields, for use elsewhere in
    /// the crate.
    pub(crate) proof fn lemma_fields(&self)
        ensures
            self.segs() == self.segments@.map_values(|s: String| s@),
            self.spec_is_absolute() == self.absolute,
    {
    }

    /// Builds an absolute key from its segments, given in root-to-leaf
    /// order and excluding the root itself (so `/f/g` is `["f", "g"]`,
    /// and the bare root `/` is the empty segment list).
    pub fn absolute(segments: Vec<String>) -> (r: PathKey)
        requires
            forall|k: int| 0 <= k < segments@.len() ==> seg_ok((#[trigger] segments@[k])@),
        ensures
            r.spec_is_absolute(),
            r.segs() == segments@.map_values(|s: String| s@),
            r.well_formed(),
    {
        PathKey { absolute: true, segments }
    }

    /// Builds a relative key from its segments.
    pub fn relative(segments: Vec<String>) -> (r: PathKey)
        requires
            forall|k: int| 0 <= k < segments@.len() ==> seg_ok((#[trigger] segments@[k])@),
        ensures
            !r.spec_is_absolute(),
            r.segs() == segments@.map_values(|s: String| s@),
            r.well_formed(),
    {
        PathKey { absolute: false, segments }
    }

    /// Whether this key is rooted at the top of the hierarchy.
    #[verifier::when_used_as_spec(spec_is_absolute)]
    pub fn is_absolute(&self) -> (r: bool)
        ensures
            r == self.spec_is_absolute(),
    {
        self.absolute
    }
}

} // verus!
