//! Ordered collections of brush tips and stamps with a current selection.
//!
//! A [`Library`] keeps its entries in insertion order and remembers which
//! one is selected.  The selection, when there is one, always names an
//! entry that exists.  Reading and writing the on-disk index and the PNG
//! files of the entries is done by the caller around these operations.

use vstd::prelude::*;

verus! {

/// A persistent collection of assets: entries in insertion order, the
/// selected entry's index, and the directory that holds their files.
pub struct Library<T> {
    entries: Vec<T>,
    selected_index: Option<usize>,
    dir: std::path::PathBuf,
}

/// What a library holds: its entries, the selection and the directory of
/// the entries' files.
pub struct LibraryView<T> {
    pub entries: Seq<T>,
    pub selected: Option<usize>,
    pub dir: std::path::PathBuf,
}

/// The selection after the entry at `index` of `len` entries was removed
/// from a library whose selection was `selected`: removing the selected
/// entry moves the selection to the first entry (or clears it when nothing
/// is left), removing an entry before the selection keeps the same entry
/// selected.
pub open spec fn selection_after_remove(selected: Option<usize>, index: int, len: int) -> Option<usize> {
    match selected {
        Some(sel) => if sel == index {
            if len - 1 == 0 { None } else { Some(0usize) }
        } else if sel > index {
            Some((sel - 1) as usize)
        } else {
            Some(sel)
        },
        None => None,
    }
}

impl<T> View for Library<T> {
    type V = LibraryView<T>;

    closed spec fn view(&self) -> LibraryView<T> {
        LibraryView { entries: self.entries@, selected: self.selected_index, dir: self.dir }
    }
}

impl<T> Library<T> {
    /// The selection names an existing entry.
    pub open spec fn wf(&self) -> bool {
        self@.selected matches Some(i) ==> i < self@.entries.len()
    }

    /// The directory that holds the entries' files.
    pub closed spec fn spec_dir(&self) -> std::path::PathBuf {
        self@.dir
    }

    /// A library of `entries` read from `dir`: the first entry is selected
    /// when there is one.
    pub fn from_entries(entries: Vec<T>, dir: std::path::PathBuf) -> (lib: Library<T>)
        ensures
            lib.wf(),
            lib@.entries == entries@,
            lib@.selected == (if entries@.len() == 0 { None } else { Some(0usize) }),
            lib.spec_dir() == dir,
    {
        let selected_index = if entries.len() == 0 { None } else { Some(0usize) };
        Library { entries, selected_index, dir }
    }

    /// The directory that holds the entries' files.
    pub fn dir(&self) -> (d: &std::path::PathBuf)
        ensures
            *d == self.spec_dir(),
    {
        &self.dir
    }

    /// Append `entry` and select it.
    pub fn push_entry(&mut self, entry: T)
        requires
            old(self).wf(),
            old(self)@.entries.len() < usize::MAX,
        ensures
            final(self).wf(),
            final(self)@.entries == old(self)@.entries.push(entry),
            final(self)@.selected == Some((final(self)@.entries.len() - 1) as usize),
            final(self).spec_dir() == old(self).spec_dir(),
    {
        self.entries.push(entry);
        self.selected_index = Some(self.entries.len() - 1);
    }

    /// Remove the entry at `index` and hand it back; the selection follows
    /// [`selection_after_remove`].  An index past the end changes nothing
    /// and gives `None`.
    pub fn remove(&mut self, index: usize) -> (removed: Option<T>)
        requires
            old(self).wf(),
        ensures
            final(self).wf(),
            final(self).spec_dir() == old(self).spec_dir(),
            index >= old(self)@.entries.len() ==> removed is None && final(self)@ == old(self)@,
            index < old(self)@.entries.len() ==> {
                &&& removed == Some(old(self)@.entries[index as int])
                &&& final(self)@.entries == old(self)@.entries.remove(index as int)
                &&& final(self)@.selected == selection_after_remove(
                    old(self)@.selected,
                    index as int,
                    old(self)@.entries.len() as int,
                )
            },
    {
        if index >= self.entries.len() {
            return None;
        }
        let entry = self.entries.remove(index);
        match self.selected_index {
            Some(sel) => {
                if sel == index {
                    self.selected_index = if self.entries.len() == 0 { None } else { Some(0usize) };
                } else if sel > index {
                    self.selected_index = Some(sel - 1);
                }
            },
            None => {},
        }
        Some(entry)
    }

    /// Select the entry at `index`; an index past the end changes nothing.
    pub fn select(&mut self, index: usize)
        requires
            old(self).wf(),
        ensures
            final(self).wf(),
            final(self).spec_dir() == old(self).spec_dir(),
            final(self)@.entries == old(self)@.entries,
            final(self)@.selected == (if index < old(self)@.entries.len() {
                Some(index)
            } else {
                old(self)@.selected
            }),
    {
        if index < self.entries.len() {
            self.selected_index = Some(index);
        }
    }

    /// Index of the selected entry, if any.
    pub fn selected_index(&self) -> (i: Option<usize>)
        ensures
            i == self@.selected,
    {
        self.selected_index
    }

    /// The selected entry, if any.
    pub fn selected(&self) -> (e: Option<&T>)
        requires
            self.wf(),
        ensures
            match self@.selected {
                Some(i) => e == Some(&self@.entries[i as int]),
                None => e is None,
            },
    {
        match self.selected_index {
            Some(i) => Some(&self.entries[i]),
            None => None,
        }
    }

    /// Replace the selected entry with `entry` and hand back the one it
    /// replaced; with nothing selected, `entry` comes back unchanged.
    pub fn replace_selected(&mut self, entry: T) -> (previous: T)
        requires
            old(self).wf(),
        ensures
            final(self).wf(),
            final(self).spec_dir() == old(self).spec_dir(),
            final(self)@.selected == old(self)@.selected,
            match old(self)@.selected {
                Some(i) => {
                    &&& previous == old(self)@.entries[i as int]
                    &&& final(self)@.entries == old(self)@.entries.update(i as int, entry)
                },
                None => previous == entry && final(self)@.entries == old(self)@.entries,
            },
    {
        match self.selected_index {
            Some(i) => {
                let previous = self.entries.remove(i);
                self.entries.insert(i, entry);
                proof {
                    assert(self.entries@ =~= old(self)@.entries.update(i as int, entry));
                }
                previous
            },
            None => entry,
        }
    }

    /// All entries in insertion order.
    pub fn entries(&self) -> (s: &[T])
        ensures
            s@ == self@.entries,
    {
        self.entries.as_slice()
    }

    /// Number of entries.
    pub fn len(&self) -> (n: usize)
        ensures
            n == self@.entries.len(),
    {
        self.entries.len()
    }

    /// `true` when the library holds no entry.
    pub fn is_empty(&self) -> (b: bool)
        ensures
            b == (self@.entries.len() == 0),
    {
        self.entries.len() == 0
    }

    /// The entry at `index`, or `None` past the end.
    pub fn get(&self, index: usize) -> (e: Option<&T>)
        ensures
            index < self@.entries.len() ==> e == Some(&self@.entries[index as int]),
            index >= self@.entries.len() ==> e is None,
    {
        if index < self.entries.len() {
            Some(&self.entries[index])
        } else {
            None
        }
    }
}

/// The spacing of a brush tip read back from its index entry: the stored
/// number cut to its low byte, 25 when the entry has none.
pub open spec fn index_spacing(stored: Option<u64>) -> u8 {
    match stored {
        Some(v) => (v % 256) as u8,
        None => 25,
    }
}

/// Spacing (percent) of a brush tip from the `spacing` field of its index
/// entry ([`index_spacing`]).
pub fn spacing_from_index(stored: Option<u64>) -> (spacing: u8)
    ensures
        spacing == index_spacing(stored),
{
    match stored {
        Some(v) => (v % 256) as u8,
        None => 25,
    }
}

/// Removing an entry keeps the selection valid; removing the selected
/// entry of a library with more than one entry selects the first one;
/// removing any other entry leaves the same entry selected.
pub proof fn law_remove_keeps_selection_valid<T>(before: LibraryView<T>, index: int)
    requires
        before.selected matches Some(i) ==> i < before.entries.len(),
        0 <= index < before.entries.len(),
    ensures
        selection_after_remove(before.selected, index, before.entries.len() as int) matches Some(j)
            ==> j < before.entries.remove(index).len(),
        before.selected is Some && before.selected->0 == index && before.entries.len() > 1
            ==> selection_after_remove(before.selected, index, before.entries.len() as int)
            == Some(0usize),
        before.selected is Some && before.selected->0 != index ==> before.entries.remove(index)[
            selection_after_remove(before.selected, index, before.entries.len() as int)->0 as int
        ] == before.entries[before.selected->0 as int],
{
}

} // verus!
