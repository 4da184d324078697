//! The front of symbol lookup: it places a file under the root directory in
//! force, then asks the store.

use crate::elf::{ElfMetadata, ElfView, FileId};
use crate::error::SymbolizerError;
use crate::symbol::Symbol;
use crate::symbol_store::{stored, symbol_outcome, SymbolStore};
use crate::text::{join_under, resolve_under};
use vstd::prelude::*;

verus! {

/// Symbol lookup by root directory, file and offset.
pub struct Symbolizer {
    dss: SymbolStore,
}

/// The entry under `id`, if the map has one.
pub open spec fn entry_of(entries: Map<FileId, ElfView>, id: FileId) -> Option<ElfView> {
    if entries.dom().contains(id) {
        Some(entries[id])
    } else {
        None
    }
}

impl Symbolizer {
    /// What the store behind the symbolizer holds.
    pub closed spec fn entries(&self) -> Map<FileId, ElfView> {
        self.dss.entries()
    }

    /// The invariant of the type: that of its store.
    pub closed spec fn wf(&self) -> bool {
        self.dss.wf()
    }

    /// A symbolizer over an empty store.
    pub fn new() -> (res: Symbolizer)
        ensures
            res.wf(),
            res.entries() == Map::<FileId, ElfView>::empty(),
    {
        Symbolizer { dss: SymbolStore::new() }
    }

    /// Where the file `dso` of a process lies when reached through `rootfs`.
    pub fn dso_path(rootfs: &String, dso: &String) -> (res: String)
        ensures
            res@ == resolve_under(rootfs@, dso@),
    {
        join_under(rootfs, dso)
    }

    /// Whether the metadata of the file is at hand.
    pub fn is_loaded(&self, id: FileId) -> (res: bool)
        ensures
            res == self.entries().dom().contains(id),
    {
        self.dss.contains(id)
    }

    /// Parses the file `dso`, reached through `rootfs`, from its bytes and
    /// debug information, unless it is at hand already. A failure leaves
    /// nothing behind.
    pub fn load(
        &mut self,
        rootfs: &String,
        dso: &String,
        id: FileId,
        bytes: &[u8],
        debug: &Vec<(u64, String)>,
    ) -> (res: Result<FileId, SymbolizerError>)
        requires
            old(self).wf(),
        ensures
            final(self).wf(),
            if old(self).entries().dom().contains(id) {
                res == Ok::<FileId, SymbolizerError>(id) && final(self).entries() == old(
                    self
                ).entries()
            } else {
                match crate::elf::parsed_elf(bytes@) {
                    None => res matches Err(SymbolizerError::ElfParse(p)) && p@ == resolve_under(
                        rootfs@,
                        dso@,
                    ) && final(self).entries() == old(self).entries(),
                    Some(image) => res == Ok::<FileId, SymbolizerError>(id) && exists|elf: ElfView|
                        #[trigger] elf.built_from(
                            resolve_under(rootfs@, dso@),
                            id,
                            image,
                            crate::elf::debug_view(debug@),
                        ) && stored(old(self).entries(), final(self).entries(), id, elf),
                }
            },
    {
        let path = join_under(rootfs, dso);
        self.dss.load_elf(&path, id, bytes, debug)
    }

    /// A copy of the metadata of the file `dso`, reached through `rootfs`.
    pub fn fetch(&mut self, rootfs: &String, dso: &String, id: FileId) -> (res: Result<
        ElfMetadata,
        SymbolizerError,
    >)
        requires
            old(self).wf(),
        ensures
            final(self).wf(),
            final(self).entries().submap_of(old(self).entries()),
            match res {
                Ok(elf) => entry_of(old(self).entries(), id) == Some(elf@) && elf.wf() && elf@.id
                    == id,
                Err(e) => entry_of(old(self).entries(), id).is_none() && (
                e matches SymbolizerError::FetchElfFailed(p) && p@ == resolve_under(rootfs@, dso@)),
            },
    {
        let path = join_under(rootfs, dso);
        self.dss.fetch_elf(&path, id)
    }

    /// Resolves `offset` in the file `dso`, reached through `rootfs`, to the
    /// function that holds it.
    pub fn symbolize(&mut self, rootfs: &String, dso: &String, id: FileId, offset: u64) -> (res:
        Result<Symbol, SymbolizerError>)
        requires
            old(self).wf(),
        ensures
            final(self).wf(),
            final(self).entries().submap_of(old(self).entries()),
            symbol_outcome(
                entry_of(old(self).entries(), id),
                resolve_under(rootfs@, dso@),
                offset,
                res,
            ),
    {
        let dso_path = join_under(rootfs, dso);
        self.dss.get_symbol(&dso_path, id, offset)
    }

    /// Resolves several offsets in one file with one look into the store; the
    /// outcomes come in the order of the offsets.
    pub fn batch_symbolize(
        &mut self,
        rootfs: &String,
        dso: &String,
        id: FileId,
        offsets: &[u64],
    ) -> (res: Vec<Result<Symbol, SymbolizerError>>)
        requires
            old(self).wf(),
        ensures
            final(self).wf(),
            final(self).entries().submap_of(old(self).entries()),
            res@.len() == offsets@.len(),
            forall|i: int|
                0 <= i < offsets@.len() ==> symbol_outcome(
                    entry_of(old(self).entries(), id),
                    resolve_under(rootfs@, dso@),
                    offsets@[i],
                    #[trigger] res@[i],
                ),
    {
        let dso_path = join_under(rootfs, dso);
        let fetched = self.dss.fetch_elf(&dso_path, id);
        let mut out: Vec<Result<Symbol, SymbolizerError>> = Vec::new();
        let mut i: usize = 0;
        while i < offsets.len()
            invariant
                i <= offsets@.len(),
                out@.len() == i,
                dso_path@ == resolve_under(rootfs@, dso@),
                match fetched {
                    Ok(elf) => entry_of(old(self).entries(), id) == Some(elf@) && elf.wf(),
                    Err(e) => entry_of(old(self).entries(), id).is_none() && e
                        == SymbolizerError::FetchElfFailed(dso_path),
                },
                forall|k: int|
                    0 <= k < i ==> symbol_outcome(
                        entry_of(old(self).entries(), id),
                        resolve_under(rootfs@, dso@),
                        offsets@[k],
                        #[trigger] out@[k],
                    ),
            decreases offsets@.len() - i,
        {
            let one = match &fetched {
                Ok(elf) => elf.find_symbol(offsets[i]),
                Err(_) => Err(SymbolizerError::FetchElfFailed(dso_path.clone())),
            };
            out.push(one);
            i += 1;
        }
        out
    }
}

} // verus!
