use vstd::prelude::*;
use crate::enum_string::str_equal;

verus! {

/// The keyword takes no option.
pub const SIGMATCH_NOOPT: u16 = 1;

/// The keyword's option may be left out.
pub const SIGMATCH_OPTIONAL_OPT: u16 = 0x10;

/// The keyword's option must be quoted.
pub const SIGMATCH_QUOTES_MANDATORY: u16 = 0x40;

/// The keyword selects the buffer that later content keywords inspect.
pub const SIGMATCH_INFO_STICKY_BUFFER: u16 = 0x200;

/// The flags of a sticky-buffer keyword: no option, sticky buffer.
pub open spec fn sticky_flags() -> u16 {
    SIGMATCH_NOOPT | SIGMATCH_INFO_STICKY_BUFFER
}

/// Whether flags hold both "no option" and "optional option".
pub open spec fn flags_conflict(flags: u16) -> bool {
    flags & (SIGMATCH_NOOPT | SIGMATCH_OPTIONAL_OPT) == (SIGMATCH_NOOPT | SIGMATCH_OPTIONAL_OPT)
}

/// The descriptive part of one keyword registration.
pub struct KeywordEntry {
    pub name: String,
    pub desc: String,
    pub url: String,
    pub flags: u16,
}

/// Why a registration was refused.
#[derive(Copy, Clone, Debug, PartialEq, Eq, Structural)]
pub enum RegisterError {
    /// The table was frozen before this registration.
    Frozen,
    /// Both "no option" and "optional option" were set.
    ConflictingFlags,
    /// A keyword of that name is already registered.
    NameTaken,
    /// Every identifier is in use.
    TableFull,
}

/// Why a release was refused.
#[derive(Copy, Clone, Debug, PartialEq, Eq, Structural)]
pub enum ReleaseError {
    /// No keyword has that identifier.
    UnknownKeyword,
    /// The keyword's strings were released already.
    AlreadyReleased,
}

/// The table of registered keywords, with whether each one's strings have
/// been released. Identifiers are positions in the table.
pub struct KeywordRegistry {
    entries: Vec<KeywordEntry>,
    released: Vec<bool>,
    frozen: bool,
}

/// The largest number of keywords a table holds: identifiers are `u16`.
pub open spec fn max_keywords() -> nat {
    0x10000
}

impl KeywordRegistry {
    /// The registrations, in order of identifier.
    pub closed spec fn entries(&self) -> Seq<KeywordEntry> {
        self.entries@
    }

    /// For each registration, whether its strings have been released.
    pub closed spec fn released(&self) -> Seq<bool> {
        self.released@
    }

    /// Whether registration is over.
    pub closed spec fn frozen(&self) -> bool {
        self.frozen
    }

    /// Whether a keyword of that name is registered.
    pub open spec fn has_name(&self, name: Seq<char>) -> bool {
        exists|i: int| 0 <= i < self.entries().len() && #[trigger] self.entries()[i].name@ == name
    }

    /// One release flag per registration, names unique, identifiers in range.
    pub open spec fn wf(&self) -> bool {
        &&& self.released().len() == self.entries().len()
        &&& self.entries().len() <= max_keywords()
        &&& forall|i: int, j: int|
            0 <= i < j < self.entries().len() ==> #[trigger] self.entries()[i].name@
                != #[trigger] self.entries()[j].name@
    }

    /// What a registration of `name` with `flags` is refused for, if anything.
    pub open spec fn register_error(&self, name: Seq<char>, flags: u16) -> Option<RegisterError> {
        if self.frozen() {
            Some(RegisterError::Frozen)
        } else if flags_conflict(flags) {
            Some(RegisterError::ConflictingFlags)
        } else if self.has_name(name) {
            Some(RegisterError::NameTaken)
        } else if self.entries().len() >= max_keywords() {
            Some(RegisterError::TableFull)
        } else {
            None
        }
    }

    /// What a release of `id` is refused for, if anything.
    pub open spec fn release_error(&self, id: u16) -> Option<ReleaseError> {
        if id >= self.entries().len() {
            Some(ReleaseError::UnknownKeyword)
        } else if self.released()[id as int] {
            Some(ReleaseError::AlreadyReleased)
        } else {
            None
        }
    }

    /// An empty table, open for registration.
    pub fn new() -> (r: Self)
        ensures
            r.wf(),
            r.entries().len() == 0,
            !r.frozen(),
    {
        KeywordRegistry { entries: Vec::new(), released: Vec::new(), frozen: false }
    }

    /// Number of registered keywords.
    pub fn len(&self) -> (r: usize)
        ensures
            r == self.entries().len(),
    {
        self.entries.len()
    }

    /// Whether registration is over.
    pub fn is_frozen(&self) -> (r: bool)
        ensures
            r == self.frozen(),
    {
        self.frozen
    }

    /// The identifier of the keyword registered under `name`, if any.
    pub fn id_of(&self, name: &str) -> (r: Option<u16>)
        requires
            self.wf(),
        ensures
            r matches Some(id) ==> id < self.entries().len() && self.entries()[id as int].name@ == name@,
            r is None <==> !self.has_name(name@),
    {
        let mut i: usize = 0;
        while i < self.entries.len()
            invariant
                self.wf(),
                i <= self.entries@.len(),
                forall|t: int| 0 <= t < i ==> #[trigger] self.entries@[t].name@ != name@,
            decreases self.entries@.len() - i,
        {
            if str_equal(self.entries[i].name.as_str(), name) {
                assert(self.entries()[i as int].name@ == name@);
                return Some(i as u16);
            }
            i = i + 1;
        }
        None
    }

    /// Register a keyword and return its identifier, which is its position
    /// in the table. Refused once the table is frozen, for conflicting
    /// flags, for a name already taken and when the table is full; a refused
    /// registration leaves the table as it was.
    pub fn register(&mut self, entry: KeywordEntry) -> (r: Result<u16, RegisterError>)
        requires
            old(self).wf(),
        ensures
            final(self).wf(),
            final(self).frozen() == old(self).frozen(),
            match old(self).register_error(entry.name@, entry.flags) {
                Some(e) => r == Err::<u16, RegisterError>(e) && final(self).entries() == old(self).entries()
                    && final(self).released() == old(self).released(),
                None => r == Ok::<u16, RegisterError>(old(self).entries().len() as u16)
                    && final(self).entries() == old(self).entries().push(entry)
                    && final(self).released() == old(self).released().push(false),
            },
    {
        if self.frozen {
            return Err(RegisterError::Frozen);
        }
        if entry.flags & (SIGMATCH_NOOPT | SIGMATCH_OPTIONAL_OPT) == (SIGMATCH_NOOPT
            | SIGMATCH_OPTIONAL_OPT) {
            return Err(RegisterError::ConflictingFlags);
        }
        if self.id_of(entry.name.as_str()).is_some() {
            return Err(RegisterError::NameTaken);
        }
        if self.entries.len() >= 0x10000 {
            return Err(RegisterError::TableFull);
        }
        let id = self.entries.len() as u16;
        let ghost name = entry.name@;
        self.entries.push(entry);
        self.released.push(false);
        proof {
            assert forall|i: int, j: int|
                0 <= i < j < self.entries@.len() implies #[trigger] self.entries@[i].name@
                != #[trigger] self.entries@[j].name@ by {
                if j == self.entries@.len() - 1 {
                    assert(self.entries@[i] == old(self).entries@[i]);
                    assert(!old(self).has_name(name));
                } else {
                    assert(self.entries@[i] == old(self).entries@[i]);
                    assert(self.entries@[j] == old(self).entries@[j]);
                }
            }
        }
        Ok(id)
    }

    /// Register a sticky-buffer keyword: it takes no option and selects the
    /// buffer for the content keywords that follow it.
    pub fn register_sticky_buffer(&mut self, name: String, desc: String, url: String) -> (r: Result<u16, RegisterError>)
        requires
            old(self).wf(),
        ensures
            final(self).wf(),
            final(self).frozen() == old(self).frozen(),
            match old(self).register_error(name@, sticky_flags()) {
                Some(e) => r == Err::<u16, RegisterError>(e) && final(self).entries() == old(self).entries()
                    && final(self).released() == old(self).released(),
                None => r == Ok::<u16, RegisterError>(old(self).entries().len() as u16)
                    && final(self).entries() == old(self).entries().push(
                    (KeywordEntry { name, desc, url, flags: sticky_flags() }),
                ) && final(self).released() == old(self).released().push(false),
            },
    {
        let flags = SIGMATCH_NOOPT | SIGMATCH_INFO_STICKY_BUFFER;
        self.register(KeywordEntry { name, desc, url, flags })
    }

    /// Close the table: later registrations are refused.
    pub fn freeze(&mut self)
        requires
            old(self).wf(),
        ensures
            final(self).wf(),
            final(self).frozen(),
            final(self).entries() == old(self).entries(),
            final(self).released() == old(self).released(),
    {
        self.frozen = true;
    }

    /// Release the strings of registration `id`. Each registration is
    /// released once: a second release, or one of an unknown identifier, is
    /// refused and changes nothing.
    pub fn release(&mut self, id: u16) -> (r: Result<(), ReleaseError>)
        requires
            old(self).wf(),
        ensures
            final(self).wf(),
            final(self).frozen() == old(self).frozen(),
            final(self).entries() == old(self).entries(),
            match old(self).release_error(id) {
                Some(e) => r == Err::<(), ReleaseError>(e) && final(self).released() == old(self).released(),
                None => r == Ok::<(), ReleaseError>(()) && final(self).released() == old(self).released().update(
                    id as int,
                    true,
                ),
            },
    {
        let i = id as usize;
        if i >= self.released.len() {
            return Err(ReleaseError::UnknownKeyword);
        }
        if self.released[i] {
            return Err(ReleaseError::AlreadyReleased);
        }
        self.released.set(i, true);
        Ok(())
    }

    /// Whether every registration has been released.
    pub fn all_released(&self) -> (r: bool)
        requires
            self.wf(),
        ensures
            r == forall|i: int| 0 <= i < self.released().len() ==> #[trigger] self.released()[i],
    {
        let mut i: usize = 0;
        while i < self.released.len()
            invariant
                i <= self.released@.len(),
                forall|t: int| 0 <= t < i ==> #[trigger] self.released@[t],
            decreases self.released@.len() - i,
        {
            if !self.released[i] {
                assert(!self.released()[i as int]);
                return false;
            }
            i = i + 1;
        }
        true
    }
}

/// A registration is released at most once: after a release of `id`
/// succeeds, a second release of `id` is refused as already done, and what
/// a release of any other identifier does is unchanged.
pub proof fn lemma_release_once(before: KeywordRegistry, after: KeywordRegistry, id: u16)
    requires
        before.wf(),
        before.release_error(id) is None,
        after.entries() == before.entries(),
        after.released() == before.released().update(id as int, true),
    ensures
        after.release_error(id) == Some(ReleaseError::AlreadyReleased),
        forall|other: u16| other != id ==> #[trigger] after.release_error(other) == before.release_error(other),
{
}

} // verus!
