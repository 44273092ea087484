//! One glyph or a set of glyphs, as layout rules name them.

use std::collections::BTreeSet;
use vstd::prelude::*;

verus! {

broadcast use vstd::std_specs::btree::group_btree_axioms;

/// A type to represent either one or multiple glyphs, each by its id.
#[derive(Debug, PartialEq, Eq, PartialOrd, Ord)]
pub enum GlyphSet {
    Single(u32),
    Multiple(BTreeSet<u32>),
}

/// Moves every glyph of `from` into `into`, with `BTreeSet::append` of the
/// standard library, which leaves `from` empty.
#[verifier::external_body]
fn append_glyphs(into: &mut BTreeSet<u32>, from: &mut BTreeSet<u32>)
    ensures
        final(into)@ == old(into)@.union(old(from)@),
        final(from)@ == Set::<u32>::empty(),
{
    into.append(from);
}

impl Clone for GlyphSet {
    /// A copy of the same kind with the same glyphs.
    fn clone(&self) -> (copy: GlyphSet)
        ensures
            copy.glyphs() == self.glyphs(),
            copy is Single <==> *self is Single,
    {
        match self {
            GlyphSet::Single(gid) => GlyphSet::Single(*gid),
            GlyphSet::Multiple(gids) => GlyphSet::Multiple(gids.clone()),
        }
    }
}

impl From<u32> for GlyphSet {
    /// The value that holds one glyph.
    fn from(src: u32) -> (set: GlyphSet) {
        GlyphSet::Single(src)
    }
}

impl vstd::std_specs::convert::FromSpecImpl<u32> for GlyphSet {
    open spec fn obeys_from_spec() -> bool {
        true
    }

    open spec fn from_spec(src: u32) -> GlyphSet {
        GlyphSet::Single(src)
    }
}

impl GlyphSet {
    /// The glyphs that the value holds.
    pub open spec fn glyphs(self) -> Set<u32> {
        match self {
            GlyphSet::Single(gid) => set![gid],
            GlyphSet::Multiple(gids) => gids@,
        }
    }

    /// The set of the given glyphs.
    pub fn from_glyphs(glyphs: Vec<u32>) -> (set: GlyphSet)
        ensures
            set is Multiple,
            set.glyphs() == glyphs@.to_set(),
    {
        let mut gids: BTreeSet<u32> = BTreeSet::new();
        let mut i: usize = 0;
        proof {
            assert(glyphs@.subrange(0, 0).to_set() =~= Set::<u32>::empty());
        }
        while i < glyphs.len()
            invariant
                i <= glyphs.len(),
                gids@ == glyphs@.subrange(0, i as int).to_set(),
            decreases glyphs.len() - i,
        {
            gids.insert(glyphs[i]);
            proof {
                let upto = glyphs@.subrange(0, i + 1);
                let before = glyphs@.subrange(0, i as int);
                assert forall|gid: u32| upto.to_set().contains(gid) <==> before.to_set().insert(
                    glyphs@[i as int],
                ).contains(gid) by {
                    if upto.contains(gid) {
                        let k = choose|k: int| 0 <= k < upto.len() && upto[k] == gid;
                        if k < i {
                            assert(before[k] == gid);
                        }
                    }
                    if before.contains(gid) {
                        let k = choose|k: int| 0 <= k < before.len() && before[k] == gid;
                        assert(upto[k] == gid);
                    }
                    if gid == glyphs@[i as int] {
                        assert(upto[i as int] == gid);
                    }
                }
                assert(gids@ =~= upto.to_set());
            }
            i = i + 1;
        }
        proof {
            assert(glyphs@.subrange(0, i as int) == glyphs@);
        }
        GlyphSet::Multiple(gids)
    }

    /// Turns a single glyph into the set of that glyph.
    pub fn make_set(&mut self)
        ensures
            *final(self) is Multiple,
            final(self).glyphs() == old(self).glyphs(),
            *old(self) is Multiple ==> *final(self) == *old(self),
    {
        match self {
            GlyphSet::Single(gid) => {
                let mut gids: BTreeSet<u32> = BTreeSet::new();
                gids.insert(*gid);
                proof {
                    assert(gids@ =~= set![*gid]);
                }
                *self = GlyphSet::Multiple(gids);
            },
            GlyphSet::Multiple(_) => {},
        }
    }

    /// Adds the glyphs of `other`. The value is a set afterwards.
    pub fn combine(&mut self, other: GlyphSet)
        ensures
            *final(self) is Multiple,
            final(self).glyphs() == old(self).glyphs().union(other.glyphs()),
    {
        self.make_set();
        match self {
            GlyphSet::Multiple(gids) => {
                match other {
                    GlyphSet::Single(gid) => {
                        gids.insert(gid);
                        proof {
                            assert(gids@ =~= old(self).glyphs().union(set![gid]));
                        }
                    },
                    GlyphSet::Multiple(mut multi) => {
                        append_glyphs(gids, &mut multi);
                    },
                }
            },
            GlyphSet::Single(_) => {},
        }
    }

    /// Adds one glyph. A single glyph to which itself is added stays single;
    /// in every other case the value is a set afterwards.
    pub fn add(&mut self, gid: u32)
        ensures
            final(self).glyphs() == old(self).glyphs().insert(gid),
            *old(self) == GlyphSet::Single(gid) ==> *final(self) == *old(self),
            *old(self) != GlyphSet::Single(gid) ==> *final(self) is Multiple,
    {
        match self {
            GlyphSet::Single(x) => {
                if *x == gid {
                    proof {
                        assert(set![gid].insert(gid) =~= set![gid]);
                    }
                    return ;
                }
            },
            GlyphSet::Multiple(_) => {},
        }
        self.make_set();
        match self {
            GlyphSet::Multiple(set) => {
                set.insert(gid);
            },
            GlyphSet::Single(_) => {},
        }
    }
}

} // verus!
