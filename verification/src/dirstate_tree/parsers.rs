//! The flat format: the two parent identifiers, then one record for each
//! entry.
//!
//! A record is the state letter, then mode, size, modification time and the
//! length of what follows as signed 32-bit integers, most significant byte
//! first, then the path; a copy source follows the path after a zero byte.

use crate::bytes::{
    be_i32_at, be_i32_bytes, byte_index, copy_bytes, find_byte, lemma_be_i32_round_trip,
    lemma_byte_index_is, push_be_i32, push_bytes, read_be_i32,
};
use crate::entry::{DirstateEntry, EntryState};
use vstd::prelude::*;
use vstd::slice::slice_subrange;

verus! {

/// Bytes of one parent identifier.
pub const PARENT_SIZE: usize = 20;

/// Bytes of the two parent identifiers that the flat format begins with.
pub const PARENTS_SIZE: usize = 40;

/// Bytes of a record before its path.
pub const MIN_ENTRY_SIZE: usize = 17;

/// The identifiers of the two parent revisions of the working directory.
#[derive(Clone, Copy, Debug, PartialEq, Eq)]
pub struct DirstateParents {
    pub p1: [u8; 20],
    pub p2: [u8; 20],
}

impl DirstateParents {
    /// The forty bytes that the flat format begins with.
    pub open spec fn spec_bytes(self) -> Seq<u8> {
        self.p1@ + self.p2@
    }

    /// The forty bytes that the flat format begins with.
    pub fn as_bytes(&self) -> (r: Vec<u8>)
        ensures
            r@ == self.spec_bytes(),
    {
        let mut out = copy_bytes(self.p1.as_slice());
        push_bytes(&mut out, self.p2.as_slice());
        out
    }

    /// The parents that the first forty bytes of `d` hold.
    pub fn from_bytes(d: &[u8]) -> (r: Self)
        requires
            d@.len() >= PARENTS_SIZE,
        ensures
            r.spec_bytes() == d@.subrange(0, PARENTS_SIZE as int),
    {
        let mut p1: [u8; 20] = [0u8; 20];
        let mut p2: [u8; 20] = [0u8; 20];
        let mut i: usize = 0;
        while i < 20
            invariant
                i <= 20,
                d@.len() >= 40,
                forall|k: int| 0 <= k < i ==> p1@[k] == d@[k],
                forall|k: int| 0 <= k < i ==> p2@[k] == d@[20 + k],
            decreases 20 - i,
        {
            p1[i] = d[i];
            p2[i] = d[20 + i];
            i += 1;
        }
        let r = DirstateParents { p1, p2 };
        proof {
            assert(r.spec_bytes() =~= d@.subrange(0, 40));
        }
        r
    }
}

/// One record of the flat format.
pub struct V1Record {
    pub path: Seq<u8>,
    pub entry: DirstateEntry,
    pub copy_source: Option<Seq<u8>>,
}

/// What follows the five fixed fields of a record: the path, and the copy
/// source behind a zero byte.
pub open spec fn record_body(r: V1Record) -> Seq<u8> {
    match r.copy_source {
        Some(source) => r.path + seq![0u8] + source,
        None => r.path,
    }
}

/// The five fixed fields of a record.
pub open spec fn record_head(state: u8, mode: i32, size: i32, mtime: i32, len: i32) -> Seq<u8> {
    seq![state] + be_i32_bytes(mode) + be_i32_bytes(size) + be_i32_bytes(mtime) + be_i32_bytes(len)
}

/// The bytes of a record.
pub open spec fn record_bytes(r: V1Record) -> Seq<u8> {
    let data = r.entry.spec_v1_data();
    record_head(
        data.state.spec_to_byte(),
        data.mode,
        data.size,
        data.mtime,
        record_body(r).len() as i32,
    ) + record_body(r)
}

/// The record can be written: something tracks its entry, the entry is in
/// range, and path and copy source are not too long for the length field.
pub open spec fn record_packable(r: V1Record) -> bool {
    &&& r.entry.wf()
    &&& r.entry.spec_any_tracked()
    &&& record_body(r).len() <= i32::MAX
}

/// The flat format keeps all of the record: it can be written, the format
/// keeps all of the entry, and the path holds no zero byte.
pub open spec fn record_exact(r: V1Record) -> bool {
    &&& record_packable(r)
    &&& r.entry.v1_exact()
    &&& forall|i: int| 0 <= i < r.path.len() ==> r.path[i] != 0
}

/// The bytes of records one after the other.
pub open spec fn pack_records(rs: Seq<V1Record>) -> Seq<u8>
    decreases rs.len(),
{
    if rs.len() == 0 {
        Seq::empty()
    } else {
        record_bytes(rs[0]) + pack_records(rs.drop_first())
    }
}

/// The record that begins at `at` and where the next one begins; nothing
/// where the bytes are cut short, the state letter is unknown, the length is
/// negative or the fields stand for no entry.
pub open spec fn record_at(d: Seq<u8>, at: int) -> Option<(V1Record, int)> {
    if at < 0 || at + MIN_ENTRY_SIZE > d.len() {
        None
    } else {
        let mode = be_i32_at(d, at + 1) as i32;
        let size = be_i32_at(d, at + 5) as i32;
        let mtime = be_i32_at(d, at + 9) as i32;
        let len = be_i32_at(d, at + 13);
        match EntryState::spec_from_byte(d[at]) {
            None => None,
            Some(state) => if len < 0 || at + MIN_ENTRY_SIZE + len > d.len()
                || !DirstateEntry::v1_fields_valid(state, mode, size, mtime) {
                None
            } else {
                let body = d.subrange(at + MIN_ENTRY_SIZE, at + MIN_ENTRY_SIZE + len);
                let k = byte_index(body, 0, 0);
                Some(
                    (
                        V1Record {
                            path: body.subrange(0, k),
                            entry: DirstateEntry::spec_from_v1_data(state, mode, size, mtime),
                            copy_source: if k < body.len() {
                                Some(body.subrange(k + 1, body.len() as int))
                            } else {
                                None
                            },
                        },
                        at + MIN_ENTRY_SIZE + len,
                    ),
                )
            },
        }
    }
}

/// The records from `at` to the end of `d`; nothing where one of them
/// cannot be read.
pub open spec fn records_from(d: Seq<u8>, at: int) -> Option<Seq<V1Record>>
    decreases d.len() - at,
{
    if at >= d.len() {
        Some(Seq::empty())
    } else {
        match record_at(d, at) {
            None => None,
            Some((r, next)) => match records_from(d, next) {
                None => None,
                Some(rest) => Some(seq![r] + rest),
            },
        }
    }
}

/// The records of a file in the flat format; nothing where the file is
/// shorter than its two parents or a record cannot be read.
pub open spec fn v1_contents(d: Seq<u8>) -> Option<Seq<V1Record>> {
    if d.len() < PARENTS_SIZE {
        None
    } else {
        records_from(d, PARENTS_SIZE as int)
    }
}

/// The last record for `path`, if there is one.
pub open spec fn find_record(rs: Seq<V1Record>, path: Seq<u8>) -> Option<V1Record>
    decreases rs.len(),
{
    if rs.len() == 0 {
        None
    } else if rs.last().path == path {
        Some(rs.last())
    } else {
        find_record(rs.drop_last(), path)
    }
}

/// No two records are for the same path.
pub open spec fn no_record_twice(rs: Seq<V1Record>) -> bool
    decreases rs.len(),
{
    rs.len() == 0 || (no_record_twice(rs.drop_last()) && find_record(
        rs.drop_last(),
        rs.last().path,
    ) is None)
}

/// A record as the parser hands it out.
pub struct ParsedRecord {
    pub path: Vec<u8>,
    pub entry: DirstateEntry,
    pub copy_source: Option<Vec<u8>>,
}

impl ParsedRecord {
    /// The record as a mathematical value.
    pub open spec fn view(self) -> V1Record {
        V1Record {
            path: self.path@,
            entry: self.entry,
            copy_source: match self.copy_source {
                Some(source) => Some(source@),
                None => None,
            },
        }
    }
}

/// Records as mathematical values.
pub open spec fn parsed_view(v: Seq<ParsedRecord>) -> Seq<V1Record> {
    Seq::new(v.len(), |i: int| v[i]@)
}

/// Reads the record that begins at `at`.
pub fn parse_record(d: &[u8], at: usize) -> (r: Option<(ParsedRecord, usize)>)
    requires
        at <= d@.len(),
    ensures
        r is Some <==> record_at(d@, at as int) is Some,
        r matches Some(found) ==> record_at(d@, at as int) == Some((found.0@, found.1 as int))
            && at < found.1 <= d@.len() && found.0.entry.wf(),
{
    let total = d.len();
    if total - at < MIN_ENTRY_SIZE {
        return None;
    }
    let state = match EntryState::from_byte(d[at]) {
        Some(state) => state,
        None => {
            return None;
        },
    };
    let mode = read_be_i32(d, at + 1);
    let size = read_be_i32(d, at + 5);
    let mtime = read_be_i32(d, at + 9);
    let len = read_be_i32(d, at + 13);
    if len < 0 {
        return None;
    }
    let len = len as usize;
    if total - at - MIN_ENTRY_SIZE < len {
        return None;
    }
    let entry = match DirstateEntry::from_v1_data(state, mode, size, mtime) {
        Some(entry) => entry,
        None => {
            return None;
        },
    };
    let body = slice_subrange(d, at + MIN_ENTRY_SIZE, at + MIN_ENTRY_SIZE + len);
    let k = find_byte(body, 0);
    let path = copy_bytes(slice_subrange(body, 0, k));
    let copy_source = if k < body.len() {
        Some(copy_bytes(slice_subrange(body, k + 1, body.len())))
    } else {
        None
    };
    Some((ParsedRecord { path, entry, copy_source }, at + MIN_ENTRY_SIZE + len))
}

/// Reads the records of a file in the flat format, behind its two parents.
pub fn parse_dirstate_entries(d: &[u8]) -> (r: Option<Vec<ParsedRecord>>)
    ensures
        r is Some <==> v1_contents(d@) is Some,
        r matches Some(records) ==> Some(parsed_view(records@)) == v1_contents(d@) && forall|
            i: int,
        | 0 <= i < records@.len() ==> (#[trigger] records@[i]).entry.wf(),
{
    let total = d.len();
    if total < PARENTS_SIZE {
        return None;
    }
    let mut out: Vec<ParsedRecord> = Vec::new();
    let mut at: usize = PARENTS_SIZE;
    proof {
        assert(parsed_view(out@) =~= Seq::<V1Record>::empty());
        match records_from(d@, at as int) {
            Some(rest) => {
                assert(parsed_view(out@) + rest =~= rest);
            },
            None => {},
        }
    }
    while at < total
        invariant
            PARENTS_SIZE <= at <= total,
            total == d@.len(),
            forall|i: int| 0 <= i < out@.len() ==> (#[trigger] out@[i]).entry.wf(),
            v1_contents(d@) == (match records_from(d@, at as int) {
                Some(rest) => Some(parsed_view(out@) + rest),
                None => None,
            }),
        decreases total - at,
    {
        match parse_record(d, at) {
            None => {
                return None;
            },
            Some((record, next)) => {
                let ghost before = parsed_view(out@);
                let ghost one = record@;
                out.push(record);
                proof {
                    assert(parsed_view(out@) =~= before.push(one));
                    match records_from(d@, next as int) {
                        Some(rest) => {
                            assert(before + (seq![one] + rest) =~= before.push(one) + rest);
                        },
                        None => {},
                    }
                }
                at = next;
            },
        }
    }
    proof {
        assert(parsed_view(out@) + Seq::<V1Record>::empty() =~= parsed_view(out@));
    }
    Some(out)
}

/// How many bytes the record of a path and its copy source takes.
pub fn packed_entry_size(filename: &[u8], copy_source: Option<&[u8]>) -> (r: Option<usize>)
    ensures
        r is Some <==> path_and_copy_len(filename@, copy_source) + MIN_ENTRY_SIZE <= usize::MAX,
        r matches Some(n) ==> n == path_and_copy_len(filename@, copy_source) + MIN_ENTRY_SIZE,
{
    let a = filename.len();
    let b = match copy_source {
        Some(source) => {
            let len = source.len();
            if len == usize::MAX {
                return None;
            }
            len + 1
        },
        None => 0,
    };
    if a > usize::MAX - b {
        return None;
    }
    if a + b > usize::MAX - MIN_ENTRY_SIZE {
        return None;
    }
    Some(a + b + MIN_ENTRY_SIZE)
}

/// Length of a path with its copy source behind a zero byte.
pub open spec fn path_and_copy_len(filename: Seq<u8>, copy_source: Option<&[u8]>) -> int {
    match copy_source {
        Some(source) => (filename.len() + 1 + source@.len()) as int,
        None => filename.len() as int,
    }
}

/// The record that a path, its entry and its copy source make.
pub open spec fn record_of(filename: Seq<u8>, entry: DirstateEntry, copy_source: Option<&[u8]>) -> V1Record {
    V1Record {
        path: filename,
        entry,
        copy_source: match copy_source {
            Some(source) => Some(source@),
            None => None,
        },
    }
}

/// Appends the record of a path, its entry and its copy source to
/// `packed`. Fails, and leaves `packed` alone, where path and copy source
/// are too long for the length field.
pub fn pack_entry(
    filename: &[u8],
    entry: &DirstateEntry,
    copy_source: Option<&[u8]>,
    packed: &mut Vec<u8>,
) -> (r: bool)
    requires
        entry.wf(),
        entry.spec_any_tracked(),
    ensures
        r == record_packable(record_of(filename@, *entry, copy_source)),
        r ==> final(packed)@ == old(packed)@ + record_bytes(
            record_of(filename@, *entry, copy_source),
        ),
        !r ==> final(packed)@ == old(packed)@,
{
    let ghost record = record_of(filename@, *entry, copy_source);
    let a = filename.len();
    let b = match copy_source {
        Some(source) => {
            let len = source.len();
            if len >= 0x7fff_ffff {
                return false;
            }
            len + 1
        },
        None => 0,
    };
    if a > 0x7fff_ffff || a + b > 0x7fff_ffff {
        return false;
    }
    let length = (a + b) as i32;
    let data = entry.v1_data();
    packed.push(data.state.to_byte());
    push_be_i32(packed, data.mode);
    push_be_i32(packed, data.size);
    push_be_i32(packed, data.mtime);
    push_be_i32(packed, length);
    push_bytes(packed, filename);
    if let Some(source) = copy_source {
        packed.push(0);
        push_bytes(packed, source);
    }
    proof {
        assert(packed@ =~= old(packed)@ + record_bytes(record));
    }
    true
}

/// A record that the format keeps whole is read back from its bytes,
/// whatever stands before and behind them.
pub proof fn lemma_record_round_trip(pre: Seq<u8>, r: V1Record, post: Seq<u8>)
    requires
        record_exact(r),
    ensures
        record_at(pre + record_bytes(r) + post, pre.len() as int) == Some(
            (r, (pre.len() + record_bytes(r).len()) as int),
        ),
        record_bytes(r).len() == MIN_ENTRY_SIZE + record_body(r).len(),
{
    let data = r.entry.spec_v1_data();
    let body = record_body(r);
    let len = body.len() as i32;
    let m = be_i32_bytes(data.mode);
    let s = be_i32_bytes(data.size);
    let t = be_i32_bytes(data.mtime);
    let l = be_i32_bytes(len);
    lemma_be_i32_round_trip(data.mode);
    lemma_be_i32_round_trip(data.size);
    lemma_be_i32_round_trip(data.mtime);
    lemma_be_i32_round_trip(len);
    let head = record_head(data.state.spec_to_byte(), data.mode, data.size, data.mtime, len);
    assert(head.len() == 17);
    let d = pre + record_bytes(r) + post;
    let at = pre.len() as int;
    assert(d[at] == data.state.spec_to_byte());
    assert(d[at + 1] == m[0] && d[at + 2] == m[1] && d[at + 3] == m[2] && d[at + 4] == m[3]);
    assert(d[at + 5] == s[0] && d[at + 6] == s[1] && d[at + 7] == s[2] && d[at + 8] == s[3]);
    assert(d[at + 9] == t[0] && d[at + 10] == t[1] && d[at + 11] == t[2] && d[at + 12] == t[3]);
    assert(d[at + 13] == l[0] && d[at + 14] == l[1] && d[at + 15] == l[2] && d[at + 16] == l[3]);
    assert(be_i32_at(d, at + 1) == data.mode);
    assert(be_i32_at(d, at + 5) == data.size);
    assert(be_i32_at(d, at + 9) == data.mtime);
    assert(be_i32_at(d, at + 13) == len);
    assert(d.subrange(at + 17, at + 17 + len) =~= body);
    match r.copy_source {
        Some(source) => {
            lemma_byte_index_is(body, 0, r.path.len() as int);
            assert(body.subrange(0, r.path.len() as int) =~= r.path);
            assert(body.subrange((r.path.len() + 1) as int, body.len() as int) =~= source);
        },
        None => {
            lemma_byte_index_is(body, 0, r.path.len() as int);
            assert(body.subrange(0, r.path.len() as int) =~= r.path);
        },
    }
}

/// Records that the format keeps whole are read back from their bytes.
pub proof fn lemma_records_round_trip(pre: Seq<u8>, rs: Seq<V1Record>)
    requires
        forall|i: int| 0 <= i < rs.len() ==> record_exact(#[trigger] rs[i]),
    ensures
        records_from(pre + pack_records(rs), pre.len() as int) == Some(rs),
    decreases rs.len(),
{
    let d = pre + pack_records(rs);
    if rs.len() == 0 {
        assert(d =~= pre);
        assert(rs =~= Seq::<V1Record>::empty());
    } else {
        let first = rs[0];
        let rest = rs.drop_first();
        let bytes = record_bytes(first);
        assert(record_exact(first));
        lemma_record_round_trip(pre, first, pack_records(rest));
        assert(d =~= pre + bytes + pack_records(rest));
        assert forall|i: int| 0 <= i < rest.len() implies record_exact(#[trigger] rest[i]) by {
            assert(rest[i] == rs[i + 1]);
        }
        lemma_records_round_trip(pre + bytes, rest);
        assert(d =~= (pre + bytes) + pack_records(rest));
        assert(seq![first] + rest =~= rs);
    }
}

/// The bytes of records with one more are the bytes of the records and then
/// the bytes of the one.
pub proof fn lemma_pack_records_push(rs: Seq<V1Record>, r: V1Record)
    ensures
        pack_records(rs.push(r)) == pack_records(rs) + record_bytes(r),
    decreases rs.len(),
{
    if rs.len() == 0 {
        assert(rs.push(r).drop_first() =~= Seq::<V1Record>::empty());
        assert(rs.push(r)[0] == r);
        assert(pack_records(rs.push(r).drop_first()) =~= Seq::<u8>::empty());
        assert(pack_records(rs.push(r)) =~= record_bytes(r));
        assert(pack_records(rs) + record_bytes(r) =~= record_bytes(r));
    } else {
        assert(rs.push(r).drop_first() =~= rs.drop_first().push(r));
        lemma_pack_records_push(rs.drop_first(), r);
        assert(pack_records(rs.push(r)) =~= pack_records(rs) + record_bytes(r));
    }
}

} // verus!
