//! The reassembly store: per-file-id state, completion policy, and
//! materialization of the reconstructed byte stream.
//!
//! The store is an arena of 256 entries, one per possible file id, created
//! up front since the id space is a single byte.  Each entry holds the
//! fragments that have arrived for that id, keyed by sequence number, the
//! expected final index once a terminal fragment has arrived, the file
//! name once a header has arrived, and a count of data packets received.

use vstd::prelude::*;

use std::collections::HashMap;

use crate::model::FileModel;
use crate::model::concat_fragments_upto;
use crate::packet::Packet;

verus! {

broadcast use vstd::std_specs::hash::group_hash_axioms;

/// Number of distinct file ids, and so of arena slots: one per byte value.
pub const FILE_ID_SPACE: usize = 256;

/// Failure while rebuilding a file's bytes from its fragments.
#[derive(Debug, PartialEq, Eq)]
pub enum ReconstructionError {
    /// No fragment was stored at this sequence number, although it lies at
    /// or below the expected final index.  The fragment was lost in
    /// transit and this protocol has no way to recover it.
    MissingFragment(u16),
}

/// The state kept for one file id.
pub struct ReassemblyEntry {
    fragments: HashMap<u16, Vec<u8>>,
    expected_count: Option<u16>,
    header_name: Option<Vec<u8>>,
    received_count: u64,
}

/// The mathematical content of a fragment table: each stored vector is
/// read as the byte sequence it holds.
pub open spec fn frag_views(m: Map<u16, Vec<u8>>) -> Map<u16, Seq<u8>> {
    m.map_values(|v: Vec<u8>| v@)
}

impl View for ReassemblyEntry {
    type V = FileModel;

    closed spec fn view(&self) -> FileModel {
        FileModel {
            fragments: frag_views(self.fragments@),
            expected_count: self.expected_count,
            header_name: match self.header_name {
                Some(v) => Some(v@),
                None => None,
            },
            received_count: self.received_count as nat,
        }
    }
}

impl ReassemblyEntry {
    /// A slot that no packet has touched yet.
    fn empty() -> (r: ReassemblyEntry)
        ensures
            r@ == FileModel::empty(),
    {
        let r = ReassemblyEntry {
            fragments: HashMap::new(),
            expected_count: None,
            header_name: None,
            received_count: 0,
        };
        proof {
            assert(frag_views(r.fragments@) =~= Map::<u16, Seq<u8>>::empty());
            assert(r@ =~= FileModel::empty());
        }
        r
    }

    /// Records the name a header packet carries; the last header wins.
    fn record_header(&mut self, name: Vec<u8>)
        ensures
            final(self)@ == old(self)@.apply_header(name@),
    {
        self.header_name = Some(name);
        proof {
            assert(self@ =~= old(self)@.apply_header(name@));
        }
    }

    /// Records one data packet: stores the payload under its sequence
    /// number, counts the arrival, and notes the expected final index when
    /// the fragment is terminal.
    fn record_data(&mut self, sequence_number: u16, is_last: bool, payload: Vec<u8>)
        requires
            old(self).received_count < u64::MAX,
        ensures
            final(self)@ == old(self)@.apply_data(sequence_number, is_last, payload@),
    {
        self.fragments.insert(sequence_number, payload);
        self.received_count = self.received_count + 1;
        if is_last {
            self.expected_count = Some(sequence_number);
        }
        proof {
            assert(frag_views(self.fragments@) =~= frag_views(old(self).fragments@).insert(
                sequence_number,
                payload@,
            ));
            assert(self@ =~= old(self)@.apply_data(sequence_number, is_last, payload@));
        }
    }
}

/// Appends every byte of `src` to `dst`.
fn append_bytes(dst: &mut Vec<u8>, src: &[u8])
    ensures
        final(dst)@ == old(dst)@ + src@,
{
    let mut i: usize = 0;
    while i < src.len()
        invariant
            i <= src@.len(),
            dst@ == old(dst)@ + src@.subrange(0, i as int),
        decreases src@.len() - i,
    {
        dst.push(src[i]);
        proof {
            assert(src@.subrange(0, i + 1) =~= src@.subrange(0, i as int).push(src@[i as int]));
            assert(old(dst)@ + src@.subrange(0, i + 1) =~= (old(dst)@ + src@.subrange(
                0,
                i as int,
            )).push(src@[i as int]));
        }
        i = i + 1;
    }
    proof {
        assert(src@.subrange(0, src@.len() as int) =~= src@);
    }
}

/// The reassembly store for a whole session, together with the completion
/// policy: the session is done once a configured number of file ids have
/// been seen and every one of them is fully received.
pub struct FileManager {
    entries: Vec<ReassemblyEntry>,
    expected_files: usize,
}

impl View for FileManager {
    type V = Map<u8, FileModel>;

    closed spec fn view(&self) -> Map<u8, FileModel> {
        Map::new(|id: u8| true, |id: u8| self.entries@[id as int]@)
    }
}

impl FileManager {
    /// The arena holds one slot for every possible file id.
    pub closed spec fn wf(self) -> bool {
        self.entries@.len() == FILE_ID_SPACE
    }

    /// How many distinct file ids this session expects to receive.
    pub closed spec fn expected_file_count(self) -> usize {
        self.expected_files
    }

    /// A store that will consider the session done after `expected_files`
    /// distinct file ids have been fully received.
    pub fn new(expected_files: usize) -> (r: FileManager)
        ensures
            r.wf(),
            r.expected_file_count() == expected_files,
            forall|id: u8| r@[id] == FileModel::empty(),
    {
        let mut entries: Vec<ReassemblyEntry> = Vec::new();
        let mut i: usize = 0;
        while i < FILE_ID_SPACE
            invariant
                i == entries@.len(),
                i <= FILE_ID_SPACE,
                forall|j: int| 0 <= j < i ==> #[trigger] entries@[j]@ == FileModel::empty(),
            decreases FILE_ID_SPACE - i,
        {
            entries.push(ReassemblyEntry::empty());
            i = i + 1;
        }
        FileManager { entries, expected_files }
    }

    /// How many of the file ids below `n` have data packets recorded.
    pub open spec fn seen_count_below(self, n: int) -> nat
        decreases n,
    {
        if n <= 0 {
            0
        } else {
            self.seen_count_below(n - 1) + if self@[(n - 1) as u8].data_seen() {
                1nat
            } else {
                0nat
            }
        }
    }

    /// How many distinct file ids have data packets recorded.
    pub open spec fn seen_count(self) -> nat {
        self.seen_count_below(FILE_ID_SPACE as int)
    }

    /// Whether the session is done: at least one file id has been seen,
    /// exactly the expected number of file ids have been seen, and every
    /// one of them is fully received.
    pub open spec fn session_complete(self) -> bool {
        &&& self.seen_count() > 0
        &&& self.seen_count() == self.expected_file_count()
        &&& forall|id: u8| self@[id].data_seen() ==> self@[id].complete()
    }

    /// Folds one decoded packet into the store.  A header packet records
    /// the file name for its id; a data packet stores its payload under
    /// its sequence number, counts the arrival, and fixes the expected
    /// final index when it is terminal.  No other file id is touched.
    pub fn process_packet(&mut self, packet: Packet)
        requires
            old(self).wf(),
            packet matches Packet::Data(d) ==> old(self)@[d.file_id].received_count < u64::MAX,
        ensures
            final(self).wf(),
            final(self).expected_file_count() == old(self).expected_file_count(),
            match packet {
                Packet::Header(h) => final(self)@ == old(self)@.insert(
                    h.file_id,
                    old(self)@[h.file_id].apply_header(h.file_name@),
                ),
                Packet::Data(d) => final(self)@ == old(self)@.insert(
                    d.file_id,
                    old(self)@[d.file_id].apply_data(d.packet_number, d.is_last_packet, d.data@),
                ),
            },
    {
        match packet {
            Packet::Header(h) => {
                let idx = h.file_id as usize;
                self.entries[idx].record_header(h.file_name);
                proof {
                    assert(self@ =~= old(self)@.insert(
                        h.file_id,
                        old(self)@[h.file_id].apply_header(h.file_name@),
                    ));
                }
            },
            Packet::Data(d) => {
                let idx = d.file_id as usize;
                self.entries[idx].record_data(d.packet_number, d.is_last_packet, d.data);
                proof {
                    assert(self@ =~= old(self)@.insert(
                        d.file_id,
                        old(self)@[d.file_id].apply_data(
                            d.packet_number,
                            d.is_last_packet,
                            d.data@,
                        ),
                    ));
                }
            },
        }
    }

    /// Whether every expected file has been fully received.  True exactly
    /// when the session is complete: the configured number of file ids
    /// have data packets recorded, and each of them also has a header and
    /// as many data packets as its terminal fragment announced.
    pub fn received_all_packets(&self) -> (r: bool)
        requires
            self.wf(),
        ensures
            r == self.session_complete(),
    {
        let mut count: usize = 0;
        let mut idx: usize = 0;
        while idx < FILE_ID_SPACE
            invariant
                self.wf(),
                idx <= FILE_ID_SPACE,
                count == self.seen_count_below(idx as int),
                count <= idx,
                forall|j: int|
                    0 <= j < idx ==> (#[trigger] self@[j as u8].data_seen()
                        ==> self@[j as u8].complete()),
            decreases FILE_ID_SPACE - idx,
        {
            let e = &self.entries[idx];
            proof {
                assert(e@ == self@[idx as u8]);
            }
            if e.received_count > 0 {
                if e.header_name.is_none() {
                    proof {
                        assert(!self@[idx as u8].complete());
                    }
                    return false;
                }
                match e.expected_count {
                    None => {
                        proof {
                            assert(!self@[idx as u8].complete());
                        }
                        return false;
                    },
                    Some(t) => {
                        if e.received_count != (t as u64) + 1 {
                            proof {
                                assert(!self@[idx as u8].complete());
                            }
                            return false;
                        }
                    },
                }
                count = count + 1;
            }
            idx = idx + 1;
        }
        proof {
            assert forall|id: u8| self@[id].data_seen() implies self@[id].complete() by {
                assert(self@[(id as int) as u8].data_seen() ==> self@[(id as int) as u8].complete());
            }
        }
        count > 0 && count == self.expected_files
    }

    /// Whether this file is fully received: a header and a terminal
    /// fragment have arrived, and as many data packets as the terminal
    /// fragment announced.
    pub fn is_file_complete(&self, file_id: u8) -> (r: bool)
        requires
            self.wf(),
        ensures
            r == self@[file_id].complete(),
    {
        let e = &self.entries[file_id as usize];
        proof {
            assert(e@ == self@[file_id]);
        }
        if e.received_count == 0 {
            // A complete file has at least one data packet.
            return false;
        }
        if e.header_name.is_none() {
            return false;
        }
        match e.expected_count {
            None => false,
            Some(t) => e.received_count == (t as u64) + 1,
        }
    }

    /// The expected final sequence number of this file, once a terminal
    /// fragment has arrived.
    pub fn expected_count(&self, file_id: u8) -> (r: Option<u16>)
        requires
            self.wf(),
        ensures
            r == self@[file_id].expected_count,
    {
        let e = &self.entries[file_id as usize];
        proof {
            assert(e@ == self@[file_id]);
        }
        e.expected_count
    }

    /// How many data packets have arrived for this file, duplicates
    /// included.
    pub fn received_count(&self, file_id: u8) -> (r: u64)
        requires
            self.wf(),
        ensures
            r as nat == self@[file_id].received_count,
    {
        let e = &self.entries[file_id as usize];
        proof {
            assert(e@ == self@[file_id]);
        }
        e.received_count
    }

    /// The file name announced by the last header packet for this file, if
    /// one has arrived.
    pub fn header_name(&self, file_id: u8) -> (r: Option<&Vec<u8>>)
        requires
            self.wf(),
        ensures
            match r {
                Some(v) => self@[file_id].header_name == Some(v@),
                None => self@[file_id].header_name is None,
            },
    {
        let e = &self.entries[file_id as usize];
        proof {
            assert(e@ == self@[file_id]);
        }
        e.header_name.as_ref()
    }

    /// The payload stored under this sequence number for this file, if one
    /// has arrived; a duplicate arrival has overwritten any earlier one.
    pub fn fragment(&self, file_id: u8, sequence_number: u16) -> (r: Option<&Vec<u8>>)
        requires
            self.wf(),
        ensures
            match r {
                Some(v) => {
                    &&& self@[file_id].fragments.dom().contains(sequence_number)
                    &&& self@[file_id].fragments[sequence_number] == v@
                },
                None => !self@[file_id].fragments.dom().contains(sequence_number),
            },
    {
        let e = &self.entries[file_id as usize];
        proof {
            assert(e@ == self@[file_id]);
        }
        e.fragments.get(&sequence_number)
    }

    /// Concatenates the stored fragments of this file in ascending
    /// sequence order, from 0 up to the expected final index.  Fails at
    /// the first index with no stored fragment: that fragment was lost and
    /// the file cannot be reconstructed.
    pub fn sort_and_return_data(&self, file_id: u8) -> (r: Result<Vec<u8>, ReconstructionError>)
        requires
            self.wf(),
            self@[file_id].expected_count is Some,
        ensures
            ({
                let m = self@[file_id];
                let t = m.expected_count.unwrap();
                match r {
                    Ok(bytes) => {
                        &&& m.covers_upto(t)
                        &&& bytes@ == concat_fragments_upto(m.fragments, t + 1)
                    },
                    Err(ReconstructionError::MissingFragment(k)) => {
                        &&& k <= t
                        &&& !m.fragments.dom().contains(k)
                        &&& forall|j: u16| j < k ==> m.fragments.dom().contains(j)
                    },
                }
            }),
    {
        let ghost m = self@[file_id];
        let e = &self.entries[file_id as usize];
        proof {
            assert(e@ == self@[file_id]);
        }
        let t: u16 = match e.expected_count {
            Some(t) => t,
            None => vstd::pervasive::unreached(),
        };
        let mut out: Vec<u8> = Vec::new();
        let mut i: u32 = 0;
        while i <= t as u32
            invariant
                self.wf(),
                e@ == m,
                m == self@[file_id],
                m.expected_count == Some(t),
                i <= t as u32 + 1,
                forall|j: u32| j < i ==> m.fragments.dom().contains(#[trigger] (j as u16)),
                out@ == concat_fragments_upto(m.fragments, i as int),
            decreases t as int + 1 - i as int,
        {
            let key: u16 = i as u16;
            match e.fragments.get(&key) {
                None => {
                    proof {
                        assert(!m.fragments.dom().contains(key));
                        assert forall|j: u16| j < key implies m.fragments.dom().contains(j) by {
                            assert((j as u32) < i);
                            assert(m.fragments.dom().contains((j as u32) as u16));
                        }
                    }
                    return Err(ReconstructionError::MissingFragment(key));
                },
                Some(payload) => {
                    proof {
                        assert(m.fragments.dom().contains(key));
                        assert(m.fragments[key] == payload@);
                    }
                    append_bytes(&mut out, payload.as_slice());
                },
            }
            i = i + 1;
        }
        proof {
            assert forall|k: u16| k <= t implies m.fragments.dom().contains(k) by {
                assert((k as u32) < i);
                assert(m.fragments.dom().contains((k as u32) as u16));
            }
        }
        Ok(out)
    }

    /// Reconstructs a complete file: the name its header announced, paired
    /// with its fragments concatenated in ascending sequence order.  The
    /// caller must have checked completion first.  Even a complete file
    /// can fail here: duplicate arrivals can satisfy the received-packet
    /// count while an index in the sequence space has no stored fragment.
    pub fn finalize(&self, file_id: u8) -> (r: Result<(Vec<u8>, Vec<u8>), ReconstructionError>)
        requires
            self.wf(),
            self@[file_id].complete(),
        ensures
            ({
                let m = self@[file_id];
                let t = m.expected_count.unwrap();
                match r {
                    Ok(p) => {
                        &&& m.header_name == Some(p.0@)
                        &&& m.covers_upto(t)
                        &&& p.1@ == concat_fragments_upto(m.fragments, t + 1)
                    },
                    Err(ReconstructionError::MissingFragment(k)) => {
                        &&& k <= t
                        &&& !m.fragments.dom().contains(k)
                        &&& forall|j: u16| j < k ==> m.fragments.dom().contains(j)
                    },
                }
            }),
    {
        let e = &self.entries[file_id as usize];
        proof {
            assert(e@ == self@[file_id]);
        }
        let mut name: Vec<u8> = Vec::new();
        match &e.header_name {
            Some(n) => append_bytes(&mut name, n.as_slice()),
            None => vstd::pervasive::unreached(),
        }
        match self.sort_and_return_data(file_id) {
            Ok(bytes) => Ok((name, bytes)),
            Err(err) => Err(err),
        }
    }

    /// The store with the session shape the protocol historically assumed:
    /// exactly three files per session.
    pub fn default() -> (r: FileManager)
        ensures
            r.wf(),
            r.expected_file_count() == 3,
            forall|id: u8| r@[id] == FileModel::empty(),
    {
        FileManager::new(3)
    }
}

} // verus!
