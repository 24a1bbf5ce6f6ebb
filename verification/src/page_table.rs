//! Permissions, page-table entries and the page table.

use vstd::prelude::*;
use std::collections::HashMap;
use crate::config::{MemError, TABLE_SPAN};
use crate::frame::FrameAllocator;

verus! {

broadcast use vstd::std_specs::hash::group_hash_axioms;

/// Mode bits of a root token: the topmost bit of the word.
pub const TOKEN_MODE: usize = usize::MAX - (usize::MAX >> 1);

/// The accesses that a mapping allows.
#[derive(Clone, Copy, Debug, PartialEq, Eq, Structural)]
pub struct MapPermission {
    pub read: bool,
    pub write: bool,
    pub execute: bool,
    pub user: bool,
}

impl MapPermission {
    /// What a port asks for: its lowest binary digit read, the next write,
    /// the third execute. User access is always granted.
    pub open spec fn of_port(port: usize) -> MapPermission {
        MapPermission {
            read: port % 2 == 1,
            write: (port / 2) % 2 == 1,
            execute: (port / 4) % 2 == 1,
            user: true,
        }
    }

    /// A port is acceptable when it asks for at least one access and for
    /// nothing beyond the three that there are.
    pub open spec fn port_ok(port: usize) -> bool {
        0 < port < 8
    }

    /// The permission set of an acceptable port, `None` for any other.
    pub fn from_port(port: usize) -> (r: Option<MapPermission>)
        ensures
            r == (if Self::port_ok(port) {
                Some(Self::of_port(port))
            } else {
                None
            }),
    {
        if port == 0 || port > 7 {
            return None;
        }
        let bits: u8 = port as u8;
        proof {
            assert((bits & 0x1 != 0) == (bits % 2 == 1)) by (bit_vector);
            assert((bits & 0x2 != 0) == ((bits / 2) % 2 == 1)) by (bit_vector);
            assert((bits & 0x4 != 0) == ((bits / 4) % 2 == 1)) by (bit_vector);
        }
        Some(
            MapPermission {
                read: bits & 0x1 != 0,
                write: bits & 0x2 != 0,
                execute: bits & 0x4 != 0,
                user: true,
            },
        )
    }

    /// A port with a bit set above its low three is 8 or more, and a port
    /// with none of the low three set and none above is 0.
    pub proof fn lemma_port_bits(port: usize)
        ensures
            (port & !0x7usize != 0) == (port > 7),
            (port & 0x7 == 0 && port & !0x7usize == 0) == (port == 0),
            (port & 0x1 != 0) == (port % 2 == 1),
            (port & 0x2 != 0) == ((port / 2) % 2 == 1),
            (port & 0x4 != 0) == ((port / 4) % 2 == 1),
    {
        assert((port & !0x7usize != 0) == (port > 7)) by (bit_vector);
        assert((port & 0x7 == 0 && port & !0x7usize == 0) == (port == 0)) by (bit_vector);
        assert((port & 0x1 != 0) == (port % 2 == 1)) by (bit_vector);
        assert((port & 0x2 != 0) == ((port / 2) % 2 == 1)) by (bit_vector);
        assert((port & 0x4 != 0) == ((port / 4) % 2 == 1)) by (bit_vector);
    }

    /// Read and write for the kernel only.
    pub fn kernel_rw() -> (r: MapPermission)
        ensures
            r == (MapPermission { read: true, write: true, execute: false, user: false }),
    {
        MapPermission { read: true, write: true, execute: false, user: false }
    }
}

/// Where a virtual page lives and what may be done with it.
#[derive(Clone, Copy, Debug, PartialEq, Eq, Structural)]
pub struct PageTableEntry {
    pub ppn: usize,
    pub perm: MapPermission,
}

/// The leaf table that holds the entry of a page.
pub open spec fn table_index(vpn: usize) -> usize {
    vpn / TABLE_SPAN
}

/// The translations of one address space, from virtual page number to
/// entry, together with the frames that hold the table itself: the root and
/// one frame for each leaf table in which a page was ever mapped. A leaf
/// table covers `TABLE_SPAN` pages in a row and stays once it is there.
pub struct PageTable {
    pub(crate) root_ppn: usize,
    pub(crate) entries: HashMap<usize, PageTableEntry>,
    pub(crate) tables: HashMap<usize, usize>,
}

impl View for PageTable {
    type V = Map<usize, PageTableEntry>;

    open(crate) spec fn view(&self) -> Map<usize, PageTableEntry> {
        self.entries@
    }
}

impl PageTable {
    /// The frame that roots the table.
    pub open(crate) spec fn root(&self) -> usize {
        self.root_ppn
    }

    /// The leaf tables that exist, each with the frame that holds it.
    pub open(crate) spec fn tables(&self) -> Map<usize, usize> {
        self.tables@
    }

    /// The token that names a table rooted at `root_ppn`.
    pub open spec fn token_of(root_ppn: usize) -> usize {
        TOKEN_MODE | root_ppn
    }

    /// An empty table rooted at the given frame.
    pub fn new(root_ppn: usize) -> (r: Self)
        ensures
            r@ == Map::<usize, PageTableEntry>::empty(),
            r.tables() == Map::<usize, usize>::empty(),
            r.root() == root_ppn,
    {
        PageTable { root_ppn, entries: HashMap::new(), tables: HashMap::new() }
    }

    /// Installs a translation for a page that has none. Where the leaf
    /// table of the page does not exist yet, a frame is taken from the pool
    /// for it; only where the pool has none does the call fail, and then
    /// nothing has changed.
    pub fn map(
        &mut self,
        frames: &mut FrameAllocator,
        vpn: usize,
        ppn: usize,
        perm: MapPermission,
    ) -> (r: Result<(), MemError>)
        requires
            !old(self)@.contains_key(vpn),
            old(frames).wf(),
        ensures
            final(self).root() == old(self).root(),
            final(frames).wf(),
            final(frames).lower() == old(frames).lower(),
            final(frames).upper() == old(frames).upper(),
            r is Err <==> !old(self).tables().contains_key(table_index(vpn)) && old(
                frames).free_count() == 0,
            r is Err ==> r == Err::<(), MemError>(MemError::OutOfMemory) && *final(self) == *old(
                self) && *final(frames) == *old(frames),
            r is Ok ==> final(self)@ == old(self)@.insert(vpn, PageTableEntry { ppn, perm }),
            r is Ok && old(self).tables().contains_key(table_index(vpn)) ==> final(self).tables()
                == old(self).tables() && *final(frames) == *old(frames),
            r is Ok && !old(self).tables().contains_key(table_index(vpn)) ==> {
                let q = final(self).tables()[table_index(vpn)];
                &&& final(self).tables() == old(self).tables().insert(table_index(vpn), q)
                &&& old(frames).is_free(q)
                &&& final(frames).is_allocated(q)
                &&& final(frames).free_count() == old(frames).free_count() - 1
                &&& forall|p: usize|
                    p != q ==> #[trigger] final(frames).is_free(p) == old(frames).is_free(p)
                &&& forall|p: usize|
                    p != q ==> #[trigger] final(frames).is_allocated(p) == old(
                        frames).is_allocated(p)
                &&& forall|p: usize|
                    p != q && #[trigger] old(frames).is_allocated(p) ==> final(
                        frames).is_allocated(p)
            },
    {
        let index: usize = vpn / TABLE_SPAN;
        if !self.tables.contains_key(&index) {
            match frames.alloc_frame() {
                Ok(q) => {
                    self.tables.insert(index, q);
                },
                Err(err) => {
                    return Err(err);
                },
            }
        }
        self.entries.insert(vpn, PageTableEntry { ppn, perm });
        Ok(())
    }

    /// Whether the leaf table with the given index exists.
    pub fn has_table(&self, index: usize) -> (r: bool)
        ensures
            r == self.tables().contains_key(index),
    {
        self.tables.contains_key(&index)
    }

    /// Removes the translation of a mapped page. Its leaf table stays.
    pub fn unmap(&mut self, vpn: usize)
        requires
            old(self)@.contains_key(vpn),
        ensures
            final(self)@ == old(self)@.remove(vpn),
            final(self).tables() == old(self).tables(),
            final(self).root() == old(self).root(),
    {
        self.entries.remove(&vpn);
    }

    /// The entry of a page, if it is mapped.
    pub fn translate(&self, vpn: usize) -> (r: Option<PageTableEntry>)
        ensures
            r == (if self@.contains_key(vpn) {
                Some(self@[vpn])
            } else {
                None
            }),
    {
        match self.entries.get(&vpn) {
            Some(e) => Some(*e),
            None => None,
        }
    }

    /// The root token, as the translation hardware takes it.
    pub fn token(&self) -> (r: usize)
        ensures
            r == Self::token_of(self.root()),
    {
        TOKEN_MODE | self.root_ppn
    }
}

} // verus!
