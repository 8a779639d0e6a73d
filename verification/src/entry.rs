//! The recorded state of one path: tracked flags and cached file metadata.

use vstd::prelude::*;

verus! {

/// Sizes, modes and seconds are kept in 31 bits.
pub const RANGE_MASK_31BIT: u32 = 0x7FFF_FFFF;

/// Nanoseconds in a second.
pub const NSEC_PER_SEC: u32 = 1_000_000_000;

/// Flat-format marker: the modification time is not to be trusted.
pub const MTIME_UNSET: i32 = -1;

/// Flat-format marker: the file comes from the second parent.
pub const SIZE_FROM_OTHER_PARENT: i32 = -2;

/// Flat-format marker: the file has to be compared afresh.
pub const SIZE_NON_NORMAL: i32 = -1;

/// The state letter of the flat format.
#[derive(Clone, Copy, Debug, PartialEq, Eq)]
pub enum EntryState {
    Normal,
    Added,
    Removed,
    Merged,
}

impl EntryState {
    /// Whether the working copy tracks a file in this state.
    pub fn is_tracked(self) -> (r: bool)
        ensures
            r == !(self is Removed),
    {
        match self {
            EntryState::Normal | EntryState::Added | EntryState::Merged => true,
            EntryState::Removed => false,
        }
    }

    /// The letter that stands for this state: `n`, `a`, `r` or `m`.
    pub open spec fn spec_to_byte(self) -> u8 {
        match self {
            EntryState::Normal => 110,
            EntryState::Added => 97,
            EntryState::Removed => 114,
            EntryState::Merged => 109,
        }
    }

    /// The letter that stands for this state.
    pub fn to_byte(self) -> (r: u8)
        ensures
            r == self.spec_to_byte(),
    {
        match self {
            EntryState::Normal => 110,
            EntryState::Added => 97,
            EntryState::Removed => 114,
            EntryState::Merged => 109,
        }
    }

    /// The state that a letter stands for, if any.
    pub open spec fn spec_from_byte(b: u8) -> Option<EntryState> {
        if b == 110 {
            Some(EntryState::Normal)
        } else if b == 97 {
            Some(EntryState::Added)
        } else if b == 114 {
            Some(EntryState::Removed)
        } else if b == 109 {
            Some(EntryState::Merged)
        } else {
            None
        }
    }

    /// The state that a letter stands for, if any.
    pub fn from_byte(b: u8) -> (r: Option<EntryState>)
        ensures
            r == Self::spec_from_byte(b),
    {
        if b == 110 {
            Some(EntryState::Normal)
        } else if b == 97 {
            Some(EntryState::Added)
        } else if b == 114 {
            Some(EntryState::Removed)
        } else if b == 109 {
            Some(EntryState::Merged)
        } else {
            None
        }
    }
}

/// A modification time whose seconds are truncated to 31 bits.
#[derive(Clone, Copy, Debug, PartialEq, Eq)]
pub struct TruncatedTimestamp {
    pub truncated_seconds: u32,
    pub nanoseconds: u32,
    /// The second component alone cannot tell this time from a later write.
    pub second_ambiguous: bool,
}

impl TruncatedTimestamp {
    /// Seconds fit in 31 bits and nanoseconds are below one second.
    pub open spec fn wf(self) -> bool {
        &&& self.truncated_seconds <= RANGE_MASK_31BIT
        &&& self.nanoseconds < NSEC_PER_SEC
    }

    /// Keeps the low 31 bits of `seconds`.
    pub fn new_truncated(seconds: u32, nanoseconds: u32, second_ambiguous: bool) -> (r: Self)
        requires
            nanoseconds < NSEC_PER_SEC,
        ensures
            r.wf(),
            r.truncated_seconds == seconds % 0x8000_0000,
            r.nanoseconds == nanoseconds,
            r.second_ambiguous == second_ambiguous,
    {
        TruncatedTimestamp {
            truncated_seconds: seconds % 0x8000_0000,
            nanoseconds,
            second_ambiguous,
        }
    }

    /// Accepts the components as they are, or fails where one is out of
    /// range.
    pub fn from_already_truncated(
        truncated_seconds: u32,
        nanoseconds: u32,
        second_ambiguous: bool,
    ) -> (r: Option<Self>)
        ensures
            r is Some <==> truncated_seconds <= RANGE_MASK_31BIT && nanoseconds < NSEC_PER_SEC,
            r is Some ==> r.unwrap() == (TruncatedTimestamp {
                truncated_seconds,
                nanoseconds,
                second_ambiguous,
            }),
    {
        if truncated_seconds <= RANGE_MASK_31BIT && nanoseconds < NSEC_PER_SEC {
            Some(TruncatedTimestamp { truncated_seconds, nanoseconds, second_ambiguous })
        } else {
            None
        }
    }

    /// The seconds, truncated to 31 bits.
    pub fn truncated_seconds(&self) -> (r: u32)
        ensures
            r == self.truncated_seconds,
    {
        self.truncated_seconds
    }

    /// The nanoseconds within the second.
    pub fn nanoseconds(&self) -> (r: u32)
        ensures
            r == self.nanoseconds,
    {
        self.nanoseconds
    }
}

/// The fields from which an entry is built.
#[derive(Clone, Copy, Debug, PartialEq, Eq)]
pub struct DirstateV2Data {
    pub wc_tracked: bool,
    pub p1_tracked: bool,
    pub p2_info: bool,
    pub mode_size: Option<(u32, u32)>,
    pub mtime: Option<TruncatedTimestamp>,
    pub fallback_exec: Option<bool>,
    pub fallback_symlink: Option<bool>,
}

impl Default for DirstateV2Data {
    fn default() -> (r: Self)
        ensures
            r == (DirstateV2Data {
                wc_tracked: false,
                p1_tracked: false,
                p2_info: false,
                mode_size: None,
                mtime: None,
                fallback_exec: None,
                fallback_symlink: None,
            }),
    {
        DirstateV2Data {
            wc_tracked: false,
            p1_tracked: false,
            p2_info: false,
            mode_size: None,
            mtime: None,
            fallback_exec: None,
            fallback_symlink: None,
        }
    }
}

/// File metadata as recorded in a parent revision.
#[derive(Clone, Copy, Debug, PartialEq, Eq)]
pub struct ParentFileData {
    pub mode_size: Option<(u32, u32)>,
    pub mtime: Option<TruncatedTimestamp>,
}

/// The recorded state of one path.
///
/// `wc_tracked`, `p1_tracked` and `p2_info` are independent: tracked in the
/// working copy, tracked in the first parent, carrying second-parent
/// information. An entry without `mtime` is possibly dirty: the file has to
/// be compared afresh.
#[derive(Clone, Copy, Debug, PartialEq, Eq)]
pub struct DirstateEntry {
    pub wc_tracked: bool,
    pub p1_tracked: bool,
    pub p2_info: bool,
    pub mode_size: Option<(u32, u32)>,
    pub mtime: Option<TruncatedTimestamp>,
    pub fallback_exec: Option<bool>,
    pub fallback_symlink: Option<bool>,
}

/// The four fields of a flat-format record.
pub struct V1Data {
    pub state: EntryState,
    pub mode: i32,
    pub size: i32,
    pub mtime: i32,
}

impl DirstateEntry {
    /// Mode and size fit in 31 bits, and the time is in range.
    pub open spec fn wf(self) -> bool {
        &&& self.mode_size matches Some(ms) ==> ms.0 <= RANGE_MASK_31BIT && ms.1
            <= RANGE_MASK_31BIT
        &&& self.mtime matches Some(t) ==> t.wf()
    }

    /// The entry that holds exactly the given fields.
    pub open spec fn spec_from_v2_data(data: DirstateV2Data) -> Self {
        DirstateEntry {
            wc_tracked: data.wc_tracked,
            p1_tracked: data.p1_tracked,
            p2_info: data.p2_info,
            mode_size: data.mode_size,
            mtime: data.mtime,
            fallback_exec: data.fallback_exec,
            fallback_symlink: data.fallback_symlink,
        }
    }

    /// The entry that holds exactly the given fields.
    pub fn from_v2_data(data: DirstateV2Data) -> (r: Self)
        requires
            data.mode_size matches Some(ms) ==> ms.0 <= RANGE_MASK_31BIT && ms.1
                <= RANGE_MASK_31BIT,
            data.mtime matches Some(t) ==> t.wf(),
        ensures
            r == Self::spec_from_v2_data(data),
            r.wf(),
    {
        DirstateEntry {
            wc_tracked: data.wc_tracked,
            p1_tracked: data.p1_tracked,
            p2_info: data.p2_info,
            mode_size: data.mode_size,
            mtime: data.mtime,
            fallback_exec: data.fallback_exec,
            fallback_symlink: data.fallback_symlink,
        }
    }

    /// The entry of a file that the working copy has just begun to track.
    pub open spec fn spec_new_tracked() -> Self {
        DirstateEntry {
            wc_tracked: true,
            p1_tracked: false,
            p2_info: false,
            mode_size: None,
            mtime: None,
            fallback_exec: None,
            fallback_symlink: None,
        }
    }

    /// A file that the working copy has just begun to track.
    pub fn new_tracked() -> (r: Self)
        ensures
            r == Self::spec_new_tracked(),
            r.wf(),
    {
        DirstateEntry {
            wc_tracked: true,
            p1_tracked: false,
            p2_info: false,
            mode_size: None,
            mtime: None,
            fallback_exec: None,
            fallback_symlink: None,
        }
    }

    /// Tracked in the working copy.
    pub fn is_tracked(&self) -> (r: bool)
        ensures
            r == self.wc_tracked,
    {
        self.wc_tracked
    }

    /// Tracked in the first parent.
    pub fn p1_tracked(&self) -> (r: bool)
        ensures
            r == self.p1_tracked,
    {
        self.p1_tracked
    }

    /// Known to a parent: tracked in the first, or with information of the
    /// second.
    pub open spec fn in_either_parent(self) -> bool {
        self.p1_tracked || self.p2_info
    }

    /// Any of the three flags is set.
    pub open spec fn spec_any_tracked(self) -> bool {
        self.wc_tracked || self.p1_tracked || self.p2_info
    }

    /// Any of the three flags is set.
    pub fn any_tracked(&self) -> (r: bool)
        ensures
            r == self.spec_any_tracked(),
    {
        self.wc_tracked || self.p1_tracked || self.p2_info
    }

    /// Known to a parent, no longer tracked in the working copy.
    pub open spec fn spec_removed(self) -> bool {
        self.in_either_parent() && !self.wc_tracked
    }

    /// Known to a parent, no longer tracked in the working copy.
    pub fn removed(&self) -> (r: bool)
        ensures
            r == self.spec_removed(),
    {
        (self.p1_tracked || self.p2_info) && !self.wc_tracked
    }

    /// Tracked in the working copy, unknown to both parents.
    pub open spec fn spec_added(self) -> bool {
        self.wc_tracked && !self.in_either_parent()
    }

    /// Tracked in the working copy, unknown to both parents.
    pub fn added(&self) -> (r: bool)
        ensures
            r == self.spec_added(),
    {
        self.wc_tracked && !(self.p1_tracked || self.p2_info)
    }

    /// Tracked in the working copy with second-parent information.
    pub open spec fn spec_p2_info(self) -> bool {
        self.wc_tracked && self.p2_info
    }

    /// Tracked in the working copy with second-parent information.
    pub fn p2_info(&self) -> (r: bool)
        ensures
            r == self.spec_p2_info(),
    {
        self.wc_tracked && self.p2_info
    }

    /// All three flags are set.
    pub open spec fn spec_modified(self) -> bool {
        self.wc_tracked && self.p1_tracked && self.p2_info
    }

    /// All three flags are set.
    pub fn modified(&self) -> (r: bool)
        ensures
            r == self.spec_modified(),
    {
        self.wc_tracked && self.p1_tracked && self.p2_info
    }

    /// The cached metadata cannot be trusted.
    pub open spec fn spec_possibly_dirty(self) -> bool {
        self.mtime is None
    }

    /// The cached metadata cannot be trusted.
    pub fn possibly_dirty(&self) -> (r: bool)
        ensures
            r == self.spec_possibly_dirty(),
    {
        self.mtime.is_none()
    }

    /// The entry marked tracked in the working copy, and possibly dirty.
    pub open spec fn spec_set_tracked(self) -> Self {
        DirstateEntry { wc_tracked: true, mtime: None, ..self }
    }

    /// Marks the file tracked in the working copy, and possibly dirty.
    pub fn set_tracked(&mut self)
        ensures
            *final(self) == old(self).spec_set_tracked(),
            old(self).wf() ==> final(self).wf(),
    {
        self.wc_tracked = true;
        self.mtime = None;
    }

    /// The entry marked untracked in the working copy, without metadata.
    pub open spec fn spec_set_untracked(self) -> Self {
        DirstateEntry { wc_tracked: false, mode_size: None, mtime: None, ..self }
    }

    /// Marks the file untracked in the working copy and forgets its
    /// metadata.
    pub fn set_untracked(&mut self)
        ensures
            *final(self) == old(self).spec_set_untracked(),
            final(self).wf(),
    {
        self.wc_tracked = false;
        self.mode_size = None;
        self.mtime = None;
    }

    /// The entry without its modification time.
    pub open spec fn spec_set_possibly_dirty(self) -> Self {
        DirstateEntry { mtime: None, ..self }
    }

    /// Forgets the modification time, so that the file is compared afresh.
    pub fn set_possibly_dirty(&mut self)
        ensures
            *final(self) == old(self).spec_set_possibly_dirty(),
            old(self).wf() ==> final(self).wf(),
    {
        self.mtime = None;
    }

    /// The entry with fresh metadata, truncated to 31 bits, tracked in the
    /// working copy and in the first parent.
    pub open spec fn spec_set_clean(self, mode: u32, size: u32, mtime: TruncatedTimestamp) -> Self {
        DirstateEntry {
            wc_tracked: true,
            p1_tracked: true,
            mode_size: Some(((mode % 0x8000_0000) as u32, (size % 0x8000_0000) as u32)),
            mtime: Some(mtime),
            ..self
        }
    }

    /// Records fresh metadata, truncated to 31 bits, and marks the file
    /// tracked in the working copy and in the first parent.
    pub fn set_clean(&mut self, mode: u32, size: u32, mtime: TruncatedTimestamp)
        ensures
            *final(self) == old(self).spec_set_clean(mode, size, mtime),
            mtime.wf() ==> final(self).wf(),
    {
        self.wc_tracked = true;
        self.p1_tracked = true;
        self.mode_size = Some((mode % 0x8000_0000, size % 0x8000_0000));
        self.mtime = Some(mtime);
    }

    /// The state letter: removed, merged, added, or else normal.
    pub open spec fn spec_state(self) -> EntryState {
        if self.spec_removed() {
            EntryState::Removed
        } else if self.spec_modified() {
            EntryState::Merged
        } else if self.spec_added() {
            EntryState::Added
        } else {
            EntryState::Normal
        }
    }

    /// The state letter of an entry that something tracks.
    pub fn state(&self) -> (r: EntryState)
        requires
            self.spec_any_tracked(),
        ensures
            r == self.spec_state(),
    {
        if self.removed() {
            EntryState::Removed
        } else if self.modified() {
            EntryState::Merged
        } else if self.added() {
            EntryState::Added
        } else {
            EntryState::Normal
        }
    }

    /// The mode field of the flat format: the mode, or 0 where none is
    /// recorded.
    pub open spec fn spec_v1_mode(self) -> int {
        match self.mode_size {
            Some(ms) => ms.0 as int,
            None => 0,
        }
    }

    /// The size field of the flat format: the size of a clean file, 0 for a
    /// removed one, and a marker where the entry carries second-parent
    /// information or has no size to go by.
    pub open spec fn spec_v1_size(self) -> int {
        if self.spec_removed() && self.p1_tracked && self.p2_info {
            SIZE_NON_NORMAL as int
        } else if self.p2_info {
            SIZE_FROM_OTHER_PARENT as int
        } else if self.spec_removed() {
            0
        } else if self.spec_added() {
            SIZE_NON_NORMAL as int
        } else {
            match self.mode_size {
                Some(ms) => ms.1 as int,
                None => SIZE_NON_NORMAL as int,
            }
        }
    }

    /// The time field of the flat format: the seconds, or the marker of an
    /// unset time where they cannot be trusted.
    pub open spec fn spec_v1_mtime(self) -> int {
        if self.spec_removed() {
            0
        } else if self.p2_info || !self.p1_tracked {
            MTIME_UNSET as int
        } else {
            match self.mtime {
                Some(t) => if t.second_ambiguous {
                    MTIME_UNSET as int
                } else {
                    t.truncated_seconds as int
                },
                None => MTIME_UNSET as int,
            }
        }
    }

    /// The four fields of the flat format that stand for this entry.
    pub open spec fn spec_v1_data(self) -> V1Data {
        V1Data {
            state: self.spec_state(),
            mode: self.spec_v1_mode() as i32,
            size: self.spec_v1_size() as i32,
            mtime: self.spec_v1_mtime() as i32,
        }
    }

    /// The four fields of the flat format that stand for this entry.
    pub fn v1_data(&self) -> (r: V1Data)
        requires
            self.wf(),
            self.spec_any_tracked(),
        ensures
            r == self.spec_v1_data(),
            r.mode == self.spec_v1_mode(),
            r.size == self.spec_v1_size(),
            r.mtime == self.spec_v1_mtime(),
    {
        let removed = self.removed();
        let mode: i32 = match self.mode_size {
            Some(ms) => ms.0 as i32,
            None => 0,
        };
        let size: i32 = if removed && self.p1_tracked && self.p2_info {
            SIZE_NON_NORMAL
        } else if self.p2_info {
            SIZE_FROM_OTHER_PARENT
        } else if removed {
            0
        } else if self.added() {
            SIZE_NON_NORMAL
        } else {
            match self.mode_size {
                Some(ms) => ms.1 as i32,
                None => SIZE_NON_NORMAL,
            }
        };
        let mtime: i32 = if removed {
            0
        } else if self.p2_info || !self.p1_tracked {
            MTIME_UNSET
        } else {
            match self.mtime {
                Some(t) => if t.second_ambiguous {
                    MTIME_UNSET
                } else {
                    t.truncated_seconds as i32
                },
                None => MTIME_UNSET,
            }
        };
        V1Data { state: self.state(), mode, size, mtime }
    }

    /// The entry that four fields of the flat format stand for.
    pub open spec fn spec_from_v1_data(state: EntryState, mode: i32, size: i32, mtime: i32) -> Self {
        let bare = DirstateEntry {
            wc_tracked: false,
            p1_tracked: false,
            p2_info: false,
            mode_size: None,
            mtime: None,
            fallback_exec: None,
            fallback_symlink: None,
        };
        match state {
            EntryState::Normal => {
                if size == SIZE_FROM_OTHER_PARENT {
                    DirstateEntry { wc_tracked: true, p2_info: true, ..bare }
                } else if size == SIZE_NON_NORMAL {
                    DirstateEntry { wc_tracked: true, p1_tracked: true, ..bare }
                } else if mtime == MTIME_UNSET {
                    DirstateEntry {
                        wc_tracked: true,
                        p1_tracked: true,
                        mode_size: Some((mode as u32, size as u32)),
                        ..bare
                    }
                } else {
                    DirstateEntry {
                        wc_tracked: true,
                        p1_tracked: true,
                        mode_size: Some((mode as u32, size as u32)),
                        mtime: Some(
                            TruncatedTimestamp {
                                truncated_seconds: mtime as u32,
                                nanoseconds: 0,
                                second_ambiguous: false,
                            },
                        ),
                        ..bare
                    }
                }
            },
            EntryState::Added => DirstateEntry { wc_tracked: true, ..bare },
            EntryState::Removed => {
                if size == SIZE_NON_NORMAL {
                    DirstateEntry { p1_tracked: true, p2_info: true, ..bare }
                } else if size == SIZE_FROM_OTHER_PARENT {
                    DirstateEntry { p2_info: true, ..bare }
                } else {
                    DirstateEntry { p1_tracked: true, ..bare }
                }
            },
            EntryState::Merged => DirstateEntry {
                wc_tracked: true,
                p1_tracked: true,
                p2_info: true,
                ..bare
            },
        }
    }

    /// Whether the four fields of a flat-format record stand for an entry:
    /// a normal file with a real size has a mode, a size and a time that are
    /// not negative, but for the marker of an unset time.
    pub open spec fn v1_fields_valid(state: EntryState, mode: i32, size: i32, mtime: i32) -> bool {
        state is Normal && size != SIZE_FROM_OTHER_PARENT && size != SIZE_NON_NORMAL ==> mode >= 0
            && size >= 0 && mtime >= MTIME_UNSET
    }

    /// The entry that four fields of the flat format stand for.
    pub fn from_v1_data(state: EntryState, mode: i32, size: i32, mtime: i32) -> (r: Option<Self>)
        ensures
            r is Some <==> Self::v1_fields_valid(state, mode, size, mtime),
            r is Some ==> r.unwrap() == Self::spec_from_v1_data(state, mode, size, mtime)
                && r.unwrap().wf() && r.unwrap().spec_any_tracked(),
    {
        let bare = DirstateEntry {
            wc_tracked: false,
            p1_tracked: false,
            p2_info: false,
            mode_size: None,
            mtime: None,
            fallback_exec: None,
            fallback_symlink: None,
        };
        match state {
            EntryState::Normal => {
                if size == SIZE_FROM_OTHER_PARENT {
                    Some(DirstateEntry { wc_tracked: true, p2_info: true, ..bare })
                } else if size == SIZE_NON_NORMAL {
                    Some(DirstateEntry { wc_tracked: true, p1_tracked: true, ..bare })
                } else if mode < 0 || size < 0 || mtime < MTIME_UNSET {
                    None
                } else if mtime == MTIME_UNSET {
                    Some(
                        DirstateEntry {
                            wc_tracked: true,
                            p1_tracked: true,
                            mode_size: Some((mode as u32, size as u32)),
                            ..bare
                        },
                    )
                } else {
                    Some(
                        DirstateEntry {
                            wc_tracked: true,
                            p1_tracked: true,
                            mode_size: Some((mode as u32, size as u32)),
                            mtime: Some(
                                TruncatedTimestamp {
                                    truncated_seconds: mtime as u32,
                                    nanoseconds: 0,
                                    second_ambiguous: false,
                                },
                            ),
                            ..bare
                        },
                    )
                }
            },
            EntryState::Added => Some(DirstateEntry { wc_tracked: true, ..bare }),
            EntryState::Removed => {
                if size == SIZE_NON_NORMAL {
                    Some(DirstateEntry { p1_tracked: true, p2_info: true, ..bare })
                } else if size == SIZE_FROM_OTHER_PARENT {
                    Some(DirstateEntry { p2_info: true, ..bare })
                } else {
                    Some(DirstateEntry { p1_tracked: true, ..bare })
                }
            },
            EntryState::Merged => Some(
                DirstateEntry { wc_tracked: true, p1_tracked: true, p2_info: true, ..bare },
            ),
        }
    }

    /// Whether the flat format keeps all of this entry: writing its four
    /// fields and reading them back gives the entry again.
    pub open spec fn v1_exact(self) -> bool {
        let d = self.spec_v1_data();
        &&& self.wf()
        &&& self.spec_any_tracked()
        &&& Self::v1_fields_valid(d.state, d.mode, d.size, d.mtime)
        &&& Self::spec_from_v1_data(d.state, d.mode, d.size, d.mtime) == self
    }

    /// The tuple shown by debugging commands: state letter, mode, size and
    /// time of the flat format, or a blank state for an entry that nothing
    /// tracks.
    pub fn debug_tuple(&self) -> (r: (u8, i32, i32, i32))
        requires
            self.wf(),
        ensures
            self.spec_any_tracked() ==> r == (
                self.spec_state().spec_to_byte(),
                self.spec_v1_mode() as i32,
                self.spec_v1_size() as i32,
                self.spec_v1_mtime() as i32,
            ),
            !self.spec_any_tracked() ==> r == (32u8, 0i32, -1i32, -1i32),
    {
        if self.any_tracked() {
            let d = self.v1_data();
            (d.state.to_byte(), d.mode, d.size, d.mtime)
        } else {
            (32, 0, -1, -1)
        }
    }
}

/// Entries that the flat format produces are kept whole by it.
pub proof fn lemma_from_v1_is_v1_exact(state: EntryState, mode: i32, size: i32, mtime: i32)
    requires
        DirstateEntry::v1_fields_valid(state, mode, size, mtime),
    ensures
        DirstateEntry::spec_from_v1_data(state, mode, size, mtime).v1_exact(),
{
}

} // verus!
