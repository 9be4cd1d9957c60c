//! Mathematical model of the reassembly state kept for one file id, and
//! the laws that hold of it.
//!
//! The executable store in `file_manager` is specified against this model:
//! every mutation is described as one of the `apply_*` transitions below,
//! so the lemmas here carry over to the running code.

use vstd::prelude::*;

verus! {

/// The state tracked for one file id.
#[verifier::ext_equal]
pub ghost struct FileModel {
    /// Payload stored for each sequence number that has arrived; a
    /// duplicate sequence number overwrites the earlier payload.
    pub fragments: Map<u16, Seq<u8>>,
    /// The sequence number of the terminal fragment, once one has arrived.
    /// It is the last index of the file, so the fragment count is one more.
    pub expected_count: Option<u16>,
    /// The file name, once a header packet has arrived.
    pub header_name: Option<Seq<u8>>,
    /// How many data packets have arrived for this file id, duplicates
    /// included.
    pub received_count: nat,
}

impl FileModel {
    /// The state before any packet has arrived.
    pub open spec fn empty() -> FileModel {
        FileModel {
            fragments: Map::empty(),
            expected_count: None,
            header_name: None,
            received_count: 0,
        }
    }

    /// The state after a header packet with the given name: the last
    /// header to arrive wins.
    pub open spec fn apply_header(self, name: Seq<u8>) -> FileModel {
        FileModel { header_name: Some(name), ..self }
    }

    /// The state after a data packet: the payload is stored under its
    /// sequence number (overwriting any earlier payload there), the
    /// arrival count grows, and a terminal fragment fixes the expected
    /// final index.
    pub open spec fn apply_data(self, sequence_number: u16, is_last: bool, payload: Seq<u8>) -> FileModel {
        FileModel {
            fragments: self.fragments.insert(sequence_number, payload),
            expected_count: if is_last {
                Some(sequence_number)
            } else {
                self.expected_count
            },
            received_count: self.received_count + 1,
            ..self
        }
    }

    /// Whether any data packet has arrived for this file id.
    pub open spec fn data_seen(self) -> bool {
        self.received_count > 0
    }

    /// Whether the file counts as fully received: a header has arrived, a
    /// terminal fragment has arrived, and the number of data packets
    /// received equals the expected fragment count.
    pub open spec fn complete(self) -> bool {
        match (self.header_name, self.expected_count) {
            (Some(_), Some(t)) => self.received_count == t + 1,
            _ => false,
        }
    }

    /// Whether a fragment is stored at every index of `0..=t`.
    pub open spec fn covers_upto(self, t: u16) -> bool {
        forall|k: u16| k <= t ==> self.fragments.dom().contains(k)
    }
}

/// The concatenation of the stored payloads at indices `0..n`, in index
/// order.
pub open spec fn concat_fragments_upto(fragments: Map<u16, Seq<u8>>, n: int) -> Seq<u8>
    decreases n,
{
    if n <= 0 {
        Seq::empty()
    } else {
        concat_fragments_upto(fragments, n - 1) + fragments[(n - 1) as u16]
    }
}

/// Law: applying the same data packet twice leaves the same stored
/// fragments, header, and expected index as applying it once; only the
/// arrival count grows again, so duplicate delivery stays visible there.
pub proof fn lemma_duplicate_data_packet(m: FileModel, sequence_number: u16, is_last: bool, payload: Seq<u8>)
    ensures
        ({
            let once = m.apply_data(sequence_number, is_last, payload);
            let twice = once.apply_data(sequence_number, is_last, payload);
            &&& twice.fragments == once.fragments
            &&& twice.header_name == once.header_name
            &&& twice.expected_count == once.expected_count
            &&& twice.received_count == once.received_count + 1
            &&& twice.received_count == m.received_count + 2
        }),
{
    let once = m.apply_data(sequence_number, is_last, payload);
    let twice = once.apply_data(sequence_number, is_last, payload);
    assert(twice.fragments =~= once.fragments);
}

/// Law: arrivals only add: a further packet never removes a stored
/// fragment or the header.  Coverage of the sequence space, once reached,
/// persists under any further delivery; of the completion test only the
/// received-count equality can be broken again, by a duplicate arrival.
pub proof fn lemma_arrivals_are_monotone(
    m: FileModel,
    sequence_number: u16,
    is_last: bool,
    payload: Seq<u8>,
    name: Seq<u8>,
    t: u16,
)
    ensures
        m.covers_upto(t) ==> m.apply_data(sequence_number, is_last, payload).covers_upto(t),
        m.covers_upto(t) ==> m.apply_header(name).covers_upto(t),
        m.header_name is Some ==> m.apply_data(sequence_number, is_last, payload).header_name
            is Some,
        m.apply_header(name).header_name is Some,
{
}

/// Every element of a finite set of 16-bit values bounded by `t` counts
/// toward a cardinality of at most `t + 1`, and the bound is met exactly
/// when the set is the whole interval `0..=t`.
proof fn lemma_bounded_u16_set_card(dom: Set<u16>, t: u16)
    requires
        dom.finite(),
        forall|k: u16| dom.contains(k) ==> k <= t,
    ensures
        dom.len() <= t + 1,
        dom.len() == t + 1 ==> forall|k: u16| k <= t ==> dom.contains(k),
        (forall|k: u16| k <= t ==> dom.contains(k)) ==> dom.len() == t + 1,
    decreases t,
{
    if t == 0 {
        if dom.contains(0u16) {
            assert(dom =~= Set::empty().insert(0u16));
        } else {
            assert(dom =~= Set::empty());
        }
    } else {
        let d = dom.remove(t);
        assert(forall|k: u16| d.contains(k) ==> k <= (t - 1) as u16);
        lemma_bounded_u16_set_card(d, (t - 1) as u16);
        if dom.contains(t) {
            assert(dom.len() == d.len() + 1);
            if dom.len() == t + 1 {
                assert forall|k: u16| k <= t implies dom.contains(k) by {
                    if k < t {
                        assert(d.contains(k));
                    }
                }
            }
            if forall|k: u16| k <= t ==> dom.contains(k) {
                assert forall|k: u16| k <= (t - 1) as u16 implies d.contains(k) by {
                    assert(dom.contains(k));
                }
            }
        } else {
            assert(d =~= dom);
        }
    }
}

/// Law: as long as every arrival so far was the first of its sequence
/// number and no sequence number exceeds the expected final index, the
/// file counts as complete exactly when a header has arrived and a
/// fragment is stored at every index of `0..=t`.  (A duplicate arrival
/// breaks the premise: it raises the received count without enlarging the
/// stored fragments, after which the count can no longer witness
/// coverage.)
pub proof fn lemma_completion_iff_coverage(m: FileModel, t: u16)
    requires
        m.expected_count == Some(t),
        m.received_count == m.fragments.dom().len(),
        m.fragments.dom().finite(),
        forall|k: u16| m.fragments.dom().contains(k) ==> k <= t,
    ensures
        m.complete() <==> (m.header_name is Some && m.covers_upto(t)),
{
    lemma_bounded_u16_set_card(m.fragments.dom(), t);
}

/// One data packet's fields, at the model level.
pub ghost struct FragModel {
    pub sequence_number: u16,
    pub is_last: bool,
    pub payload: Seq<u8>,
}

/// The state after the data packets of `s` have been applied in order.
pub open spec fn apply_data_all(m: FileModel, s: Seq<FragModel>) -> FileModel
    decreases s.len(),
{
    if s.len() == 0 {
        m
    } else {
        apply_data_all(m, s.drop_last()).apply_data(
            s.last().sequence_number,
            s.last().is_last,
            s.last().payload,
        )
    }
}

/// No two packets of the delivery carry the same sequence number.
pub open spec fn distinct_sequence_numbers(s: Seq<FragModel>) -> bool {
    forall|i: int, j: int|
        0 <= i < j < s.len() ==> s[i].sequence_number != s[j].sequence_number
}

/// At most one packet of the delivery is marked terminal.
pub open spec fn at_most_one_terminal(s: Seq<FragModel>) -> bool {
    forall|i: int, j: int|
        0 <= i < s.len() && 0 <= j < s.len() && s[i].is_last && s[j].is_last ==> i == j
}

/// Whether some packet of the delivery is marked terminal.
pub open spec fn has_terminal(s: Seq<FragModel>) -> bool {
    exists|i: int| 0 <= i < s.len() && s[i].is_last
}

/// The fragment store that the delivery builds up on its own, later
/// packets overwriting earlier ones.
spec fn frag_map_of(s: Seq<FragModel>) -> Map<u16, Seq<u8>>
    decreases s.len(),
{
    if s.len() == 0 {
        Map::empty()
    } else {
        frag_map_of(s.drop_last()).insert(s.last().sequence_number, s.last().payload)
    }
}

/// Applying a delivery leaves the header alone, raises the received count
/// by the delivery's length, and lays the delivery's fragments over the
/// ones already stored.
proof fn lemma_apply_data_all_shape(m: FileModel, s: Seq<FragModel>)
    ensures
        apply_data_all(m, s).header_name == m.header_name,
        apply_data_all(m, s).received_count == m.received_count + s.len(),
        apply_data_all(m, s).fragments == m.fragments.union_prefer_right(frag_map_of(s)),
    decreases s.len(),
{
    if s.len() == 0 {
        assert(m.fragments.union_prefer_right(frag_map_of(s)) =~= m.fragments);
    } else {
        lemma_apply_data_all_shape(m, s.drop_last());
        assert(m.fragments.union_prefer_right(frag_map_of(s.drop_last())).insert(
            s.last().sequence_number,
            s.last().payload,
        ) =~= m.fragments.union_prefer_right(frag_map_of(s)));
    }
}

/// A sequence number is stored by the delivery exactly when some packet of
/// the delivery carries it.
proof fn lemma_frag_map_of_dom(s: Seq<FragModel>, k: u16)
    ensures
        frag_map_of(s).dom().contains(k) <==> (exists|i: int|
            0 <= i < s.len() && s[i].sequence_number == k),
    decreases s.len(),
{
    if s.len() > 0 {
        lemma_frag_map_of_dom(s.drop_last(), k);
        if s.last().sequence_number == k {
            assert(0 <= s.len() - 1 < s.len() && s[s.len() - 1].sequence_number == k);
        } else {
            if exists|i: int| 0 <= i < s.drop_last().len() && s.drop_last()[i].sequence_number == k {
                let i = choose|i: int|
                    0 <= i < s.drop_last().len() && s.drop_last()[i].sequence_number == k;
                assert(0 <= i < s.len() && s[i].sequence_number == k);
            }
            if exists|i: int| 0 <= i < s.len() && s[i].sequence_number == k {
                let i = choose|i: int| 0 <= i < s.len() && s[i].sequence_number == k;
                assert(0 <= i < s.drop_last().len() && s.drop_last()[i].sequence_number == k);
            }
        }
    }
}

/// With distinct sequence numbers, the payload stored under a packet's
/// sequence number is that packet's payload.
proof fn lemma_frag_map_of_value(s: Seq<FragModel>, i: int)
    requires
        distinct_sequence_numbers(s),
        0 <= i < s.len(),
    ensures
        frag_map_of(s).dom().contains(s[i].sequence_number),
        frag_map_of(s)[s[i].sequence_number] == s[i].payload,
    decreases s.len(),
{
    if i < s.len() - 1 {
        assert(distinct_sequence_numbers(s.drop_last())) by {
            assert(forall|a: int, b: int|
                0 <= a < b < s.drop_last().len() ==> s.drop_last()[a] == s[a] && s.drop_last()[b]
                    == s[b]);
        }
        lemma_frag_map_of_value(s.drop_last(), i);
        assert(s[i].sequence_number != s.last().sequence_number);
    }
}

/// With at most one terminal packet, the expected final index after a
/// delivery is the terminal packet's sequence number, and stays what it
/// was when the delivery has no terminal packet.
proof fn lemma_apply_data_all_expected(m: FileModel, s: Seq<FragModel>)
    requires
        at_most_one_terminal(s),
    ensures
        !has_terminal(s) ==> apply_data_all(m, s).expected_count == m.expected_count,
        forall|i: int|
            0 <= i < s.len() && s[i].is_last ==> apply_data_all(m, s).expected_count == Some(
                s[i].sequence_number,
            ),
    decreases s.len(),
{
    if s.len() > 0 {
        let dl = s.drop_last();
        assert(at_most_one_terminal(dl)) by {
            assert(forall|a: int| 0 <= a < dl.len() ==> dl[a] == s[a]);
        }
        lemma_apply_data_all_expected(m, dl);
        if s.last().is_last {
            assert forall|i: int|
                0 <= i < s.len() && s[i].is_last implies apply_data_all(m, s).expected_count
                == Some(s[i].sequence_number) by {
                assert(i == s.len() - 1);
            }
        } else {
            if has_terminal(s) {
                let i = choose|i: int| 0 <= i < s.len() && s[i].is_last;
                assert(0 <= i < dl.len() && dl[i].is_last);
            }
            assert forall|i: int|
                0 <= i < s.len() && s[i].is_last implies apply_data_all(m, s).expected_count
                == Some(s[i].sequence_number) by {
                assert(0 <= i < dl.len() && dl[i].is_last);
                assert(0 <= i < dl.len() && dl[i].is_last ==> apply_data_all(m, dl).expected_count
                    == Some(dl[i].sequence_number));
            }
            if !has_terminal(s) {
                assert(!has_terminal(dl)) by {
                    if has_terminal(dl) {
                        let i = choose|i: int| 0 <= i < dl.len() && dl[i].is_last;
                        assert(0 <= i < s.len() && s[i].is_last);
                    }
                }
            }
        }
    }
}

/// Law: delivering the same data packets in any order leaves the same
/// state, provided no two of them share a sequence number and at most one
/// is terminal.  In particular, delivering the terminal fragment first and
/// the rest in reverse yields the same reconstruction as in-order
/// delivery, since reconstruction reads nothing but this state.
pub proof fn lemma_delivery_order_irrelevant(m: FileModel, s1: Seq<FragModel>, s2: Seq<FragModel>)
    requires
        s1.to_multiset() == s2.to_multiset(),
        distinct_sequence_numbers(s1),
        distinct_sequence_numbers(s2),
        at_most_one_terminal(s1),
        at_most_one_terminal(s2),
    ensures
        apply_data_all(m, s1) == apply_data_all(m, s2),
{
    broadcast use vstd::seq_lib::group_to_multiset_ensures;

    lemma_apply_data_all_shape(m, s1);
    lemma_apply_data_all_shape(m, s2);
    assert(s1.len() == s2.len()) by {
        assert(s1.to_multiset().len() == s1.len());
        assert(s2.to_multiset().len() == s2.len());
    }
    assert forall|k: u16| #[trigger]
        frag_map_of(s1).dom().contains(k) implies frag_map_of(s2).dom().contains(k)
        && frag_map_of(s1)[k] == frag_map_of(s2)[k] by {
        lemma_frag_map_of_dom(s1, k);
        let i = choose|i: int| 0 <= i < s1.len() && s1[i].sequence_number == k;
        assert(s1.contains(s1[i]));
        assert(s1.to_multiset().count(s1[i]) > 0);
        assert(s2.to_multiset().count(s1[i]) > 0);
        assert(s2.contains(s1[i]));
        let j = choose|j: int| 0 <= j < s2.len() && s2[j] == s1[i];
        lemma_frag_map_of_value(s1, i);
        lemma_frag_map_of_value(s2, j);
    }
    assert forall|k: u16| #[trigger]
        frag_map_of(s2).dom().contains(k) implies frag_map_of(s1).dom().contains(k) by {
        lemma_frag_map_of_dom(s2, k);
        let j = choose|j: int| 0 <= j < s2.len() && s2[j].sequence_number == k;
        assert(s2.contains(s2[j]));
        assert(s2.to_multiset().count(s2[j]) > 0);
        assert(s1.to_multiset().count(s2[j]) > 0);
        assert(s1.contains(s2[j]));
        let i = choose|i: int| 0 <= i < s1.len() && s1[i] == s2[j];
        lemma_frag_map_of_dom(s1, k);
        assert(0 <= i < s1.len() && s1[i].sequence_number == k);
    }
    assert(frag_map_of(s1) =~= frag_map_of(s2));
    lemma_apply_data_all_expected(m, s1);
    lemma_apply_data_all_expected(m, s2);
    if has_terminal(s1) {
        let i = choose|i: int| 0 <= i < s1.len() && s1[i].is_last;
        assert(s1.contains(s1[i]));
        assert(s1.to_multiset().count(s1[i]) > 0);
        assert(s2.to_multiset().count(s1[i]) > 0);
        assert(s2.contains(s1[i]));
        let j = choose|j: int| 0 <= j < s2.len() && s2[j] == s1[i];
        assert(apply_data_all(m, s1).expected_count == Some(s1[i].sequence_number));
        assert(apply_data_all(m, s2).expected_count == Some(s2[j].sequence_number));
    } else {
        assert(!has_terminal(s2)) by {
            if has_terminal(s2) {
                let j = choose|j: int| 0 <= j < s2.len() && s2[j].is_last;
                assert(s2.contains(s2[j]));
                assert(s2.to_multiset().count(s2[j]) > 0);
                assert(s1.to_multiset().count(s2[j]) > 0);
                assert(s1.contains(s2[j]));
                let i = choose|i: int| 0 <= i < s1.len() && s1[i] == s2[j];
                assert(0 <= i < s1.len() && s1[i].is_last);
            }
        }
    }
    assert(apply_data_all(m, s1) =~= apply_data_all(m, s2));
}

} // verus!
