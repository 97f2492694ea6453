//! Interned names: worlds, tilesets, tiles, entity types, animations and
//! events are referred to by small integers that stand for their text. The
//! text itself is kept as an interned string, of which the whole process
//! holds one copy.

use vstd::prelude::*;
use immutable_string::ImmutableString;

verus! {

#[verifier::external_type_specification]
#[verifier::external_body]
pub struct ExImmutableString(ImmutableString);

/// The characters that an interned string holds.
pub uninterp spec fn text_of(name: ImmutableString) -> Seq<char>;

/// Interns `text` with `ImmutableString::from`: the interned string holds the
/// characters of `text`. The call panics only if the lock of the shared
/// table is poisoned, that is after a panic inside an earlier call.
#[verifier::external_body]
fn interned(text: &str) -> (name: ImmutableString)
    ensures
        text_of(name) == text@,
{
    ImmutableString::from(text)
}

/// The text of an interned string, as `ImmutableString::as_ref` hands it
/// out: the characters that the string holds.
#[verifier::external_body]
fn as_text(name: &ImmutableString) -> (text: &str)
    ensures
        text@ == text_of(*name),
{
    name.as_ref()
}

/// Whether two texts are the same.
pub fn same_text(a: &str, b: &str) -> (r: bool)
    ensures
        r == (a@ == b@),
{
    a.to_owned() == b.to_owned()
}

pub type WorldId = u32;

pub type TilesetId = u32;

pub type TileId = u32;

pub type EntityTypeId = u32;

pub type AnimationId = u32;

pub type EventId = u32;

/// Identifier of the empty name, the world of a session without a camera.
pub const NO_NAME: u32 = 0;

/// Identifier of the name `default`: the tile every layer starts out with and
/// the animation every entity starts out with.
pub const DEFAULT_NAME: u32 = 1;

/// Table of every name seen so far. A name's identifier is its index, and is
/// never reassigned.
pub struct Names {
    pub table: Vec<ImmutableString>,
}

impl View for Names {
    type V = Seq<Seq<char>>;

    open spec fn view(&self) -> Seq<Seq<char>> {
        self.table@.map_values(|s: ImmutableString| text_of(s))
    }
}

/// No text occurs twice in `table`.
pub open spec fn distinct_names(table: Seq<Seq<char>>) -> bool {
    forall|i: int, j: int| 0 <= i < j < table.len() ==> table[i] != table[j]
}

impl Names {
    /// No text occurs twice, and the two reserved names are in their places.
    pub open spec fn wf(&self) -> bool {
        &&& distinct_names(self@)
        &&& 2 <= self@.len() <= 0x1_0000_0000
        &&& self@[0] == ""@
        &&& self@[1] == "default"@
    }

    /// The table that holds only the reserved names.
    pub fn new() -> (names: Names)
        ensures
            names.wf(),
            names@ == seq![""@, "default"@],
    {
        let mut table: Vec<ImmutableString> = Vec::new();
        table.push(interned(""));
        table.push(interned("default"));
        let names = Names { table };
        proof {
            reveal_strlit("");
            reveal_strlit("default");
            assert(names@ =~= seq![""@, "default"@]);
            assert(""@.len() != "default"@.len());
        }
        names
    }

    /// The identifier of `name`, if it has one.
    pub fn lookup(&self, name: &str) -> (id: Option<u32>)
        requires
            self.wf(),
        ensures
            match id {
                Some(i) => i < self@.len() && self@[i as int] == name@,
                None => !self@.contains(name@),
            },
    {
        let mut i: usize = 0;
        while i < self.table.len()
            invariant
                i <= self.table.len(),
                self@.len() == self.table.len(),
                self@.len() <= 0x1_0000_0000,
                forall|j: int| 0 <= j < i ==> self@[j] != name@,
            decreases self.table.len() - i,
        {
            if same_text(as_text(&self.table[i]), name) {
                return Some(i as u32);
            }
            i += 1;
        }
        None
    }

    /// The identifier of `name`, which is entered into the table if it is
    /// new. `None` if the name is new and the table is full.
    pub fn intern(&mut self, name: &str) -> (id: Option<u32>)
        requires
            old(self).wf(),
        ensures
            final(self).wf(),
            old(self)@.contains(name@) ==> final(self)@ == old(self)@,
            !old(self)@.contains(name@) && old(self)@.len() <= 0xffff_ffff ==> final(self)@
                == old(self)@.push(name@),
            !old(self)@.contains(name@) && old(self)@.len() > 0xffff_ffff ==> final(self)@
                == old(self)@,
            match id {
                Some(i) => i < final(self)@.len() && final(self)@[i as int] == name@,
                None => !old(self)@.contains(name@) && old(self)@.len() > 0xffff_ffff,
            },
    {
        match self.lookup(name) {
            Some(i) => Some(i),
            None => {
                let n = self.table.len();
                if n > 0xffff_ffff {
                    return None;
                }
                self.table.push(interned(name));
                proof {
                    assert(self@ =~= old(self)@.push(name@));
                }
                Some(n as u32)
            },
        }
    }

    /// The text that `id` stands for.
    pub fn resolve(&self, id: u32) -> (text: Option<String>)
        ensures
            match text {
                Some(t) => id < self@.len() && t@ == self@[id as int],
                None => id >= self@.len(),
            },
    {
        if (id as usize) < self.table.len() {
            Some(as_text(&self.table[id as usize]).to_owned())
        } else {
            None
        }
    }

    /// Number of names in the table.
    pub fn len(&self) -> (n: usize)
        ensures
            n == self@.len(),
    {
        self.table.len()
    }
}

/// A name keeps its identifier: interning the text of an identifier that is
/// already in the table leaves the table as it is and gives that identifier.
pub proof fn lemma_identifier_unique(table: Seq<Seq<char>>, i: int, j: int)
    requires
        distinct_names(table),
        0 <= i < table.len(),
        0 <= j < table.len(),
        table[i] == table[j],
    ensures
        i == j,
{
}

} // verus!
